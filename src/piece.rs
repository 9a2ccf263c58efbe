use vstd::prelude::*;
use crate::gfx::{Block, Color, faded, faded_value, packed, point_blocks, points_fit, push_points};
use crate::util::Position;
use crate::util::lemma_index_bound;

verus! {

/// A square matrix of blocks, stored row by row.
pub struct BlockMatrix {
    stride: usize,
    data: Vec<bool>,
}

/// Whether cell `a` comes before cell `b` in row-major order.
pub open spec fn row_major_before(a: (usize, usize), b: (usize, usize)) -> bool {
    a.1 < b.1 || (a.1 == b.1 && a.0 < b.0)
}

/// Whether a list of cells is in strictly increasing row-major order, so
/// without repeats.
pub open spec fn row_major_sorted(s: Seq<(usize, usize)>) -> bool {
    forall|i: int, j: int| 0 <= i < j < s.len() ==> row_major_before(#[trigger] s[i], #[trigger] s[j])
}

/// Whether a list of rows is square: as many columns in each row as rows.
pub open spec fn is_square(rows: Seq<Vec<u8>>) -> bool {
    forall|y: int| 0 <= y < rows.len() ==> (#[trigger] rows[y])@.len() == rows.len()
}

impl BlockMatrix {
    pub closed spec fn wf(&self) -> bool {
        self.data@.len() == self.stride * self.stride
    }

    pub closed spec fn spec_stride(&self) -> int {
        self.stride as int
    }

    /// Whether the block at column `x`, row `y` is set; false outside.
    pub closed spec fn occupied(&self, x: int, y: int) -> bool {
        0 <= x < self.stride && 0 <= y < self.stride && self.data@[y * self.stride + x]
    }

    /// The set blocks among the first `k` in row-major order, as (x, y).
    pub closed spec fn coords_upto(&self, k: int) -> Seq<(usize, usize)>
        decreases k,
    {
        if k <= 0 || self.stride == 0 {
            Seq::empty()
        } else {
            let x = (k - 1) % (self.stride as int);
            let y = (k - 1) / (self.stride as int);
            self.coords_upto(k - 1) + if self.occupied(x, y) {
                seq![(x as usize, y as usize)]
            } else {
                Seq::empty()
            }
        }
    }

    /// The set blocks in row-major order, as (x, y).
    pub closed spec fn coords(&self) -> Seq<(usize, usize)> {
        self.coords_upto(self.stride * self.stride)
    }

    /// The matrix whose block at (x, y) is set iff `rows[y][x] != 0`.
    pub fn new(rows: &Vec<Vec<u8>>) -> (m: Self)
        requires
            is_square(rows@),
            rows@.len() * rows@.len() <= usize::MAX,
        ensures
            m.wf(),
            m.spec_stride() == rows@.len(),
            forall|x: int, y: int|
                0 <= x < rows@.len() && 0 <= y < rows@.len() ==> (m.occupied(x, y) <==> rows@[y]@[x]
                    != 0),
    {
        let stride = rows.len();
        let mut v: Vec<bool> = Vec::new();
        let mut y: usize = 0;
        while y < stride
            invariant
                stride == rows@.len(),
                is_square(rows@),
                stride * stride <= usize::MAX,
                y <= stride,
                v@.len() == y * stride,
                forall|i: int, j: int|
                    0 <= i < stride && 0 <= j < y ==> v@[j * stride + i] == (rows@[j]@[i] != 0),
            decreases stride - y,
        {
            let row = &rows[y];
            let mut x: usize = 0;
            while x < stride
                invariant
                    stride == rows@.len(),
                    row@.len() == stride,
                    row == rows@[y as int],
                    stride * stride <= usize::MAX,
                    y < stride,
                    x <= stride,
                    v@.len() == y * stride + x,
                    forall|i: int, j: int|
                        0 <= i < stride && 0 <= j < y ==> v@[j * stride + i] == (rows@[j]@[i]
                            != 0),
                    forall|i: int| 0 <= i < x ==> v@[y * stride + i] == (row@[i] != 0),
                decreases stride - x,
            {
                proof {
                    lemma_index_bound(x as int, y as int, stride as int, stride as int);
                }
                let ghost old_v = v@;
                v.push(row[x] != 0);
                assert forall|i: int, j: int|
                    0 <= i < stride && 0 <= j < y implies v@[j * stride + i] == (rows@[j]@[i]
                    != 0) by {
                    lemma_index_bound(i, j, stride as int, y as int);
                }
                x = x + 1;
            }
            proof {
                assert((y + 1) * stride == y * stride + stride) by (nonlinear_arith);
            }
            y = y + 1;
        }
        let m = Self { stride, data: v };
        assert forall|x: int, y: int|
            0 <= x < rows@.len() && 0 <= y < rows@.len() implies (m.occupied(x, y)
            <==> rows@[y]@[x] != 0) by {
            lemma_index_bound(x, y, stride as int, stride as int);
        }
        m
    }

    fn get_block(&self, x: usize, y: usize) -> (r: bool)
        requires
            self.wf(),
            x < self.stride,
            y < self.stride,
        ensures
            r == self.occupied(x as int, y as int),
    {
        proof {
            lemma_index_bound(x as int, y as int, self.stride as int, self.stride as int);
            assert(self.data@.len() == self.data.len());
        }
        self.data[y * self.stride + x]
    }

    /// The set blocks as (x, y) pairs, row by row.
    fn iter_coords(&self) -> (r: Vec<(usize, usize)>)
        requires
            self.wf(),
        ensures
            r@ == self.coords(),
            row_major_sorted(r@),
            forall|i: int| 0 <= i < r@.len() ==> self.occupied(#[trigger] r@[i].0 as int, r@[i].1 as int),
            forall|x: int, y: int| #[trigger] self.occupied(x, y) ==> exists|i: int|
                0 <= i < r@.len() && r@[i].0 == x && r@[i].1 == y,
    {
        let mut r: Vec<(usize, usize)> = Vec::new();
        let mut y: usize = 0;
        while y < self.stride
            invariant
                self.wf(),
                y <= self.stride,
                r@ == self.coords_upto(y * self.stride),
                row_major_sorted(r@),
                forall|i: int| 0 <= i < r@.len() ==> (#[trigger] r@[i]).1 < y,
                forall|i: int| 0 <= i < r@.len() ==> self.occupied(#[trigger] r@[i].0 as int, r@[i].1 as int),
                forall|bx: int, by: int| #[trigger] self.occupied(bx, by) && by < y ==> exists|i: int|
                    0 <= i < r@.len() && r@[i].0 == bx && r@[i].1 == by,
            decreases self.stride - y,
        {
            let mut x: usize = 0;
            while x < self.stride
                invariant
                    self.wf(),
                    y < self.stride,
                    x <= self.stride,
                    r@ == self.coords_upto(y * self.stride + x),
                    row_major_sorted(r@),
                    forall|i: int| 0 <= i < r@.len() ==> row_major_before(#[trigger] r@[i], (x, y)),
                    forall|i: int| 0 <= i < r@.len() ==> self.occupied(#[trigger] r@[i].0 as int, r@[i].1 as int),
                    forall|bx: int, by: int| #[trigger] self.occupied(bx, by) && (by < y || (by == y && bx < x)) ==> exists|i: int|
                        0 <= i < r@.len() && r@[i].0 == bx && r@[i].1 == by,
                decreases self.stride - x,
            {
                proof {
                    vstd::arithmetic::div_mod::lemma_fundamental_div_mod_converse(
                        y * self.stride + x, self.stride as int, y as int, x as int);
                    assert((y * self.stride + x + 1) - 1 == y * self.stride + x);
                }
                let ghost before = r@;
                if self.get_block(x, y) {
                    let ghost old_r = r@;
                    r.push((x, y));
                    assert forall|bx: int, by: int| #[trigger] self.occupied(bx, by) && (by < y || (by == y && bx < x + 1)) implies exists|i: int|
                        0 <= i < r@.len() && r@[i].0 == bx && r@[i].1 == by by {
                        if by == y && bx == x {
                            assert(r@[old_r.len() as int] == (x, y));
                        } else {
                            let i = choose|i: int| 0 <= i < old_r.len() && old_r[i].0 == bx && old_r[i].1 == by;
                            assert(r@[i] == old_r[i]);
                        }
                    }
                }
                assert(r@ =~= self.coords_upto(y * self.stride + x + 1));
                x = x + 1;
            }
            proof {
                assert((y + 1) * self.stride == y * self.stride + self.stride) by (nonlinear_arith);
            }
            y = y + 1;
        }
        r
    }

    /// The matrix turned a quarter clockwise.
    fn rotate(&self) -> (m: Self)
        requires
            self.wf(),
        ensures
            m.wf(),
            m.spec_stride() == self.spec_stride(),
            forall|x: int, y: int| #[trigger] m.occupied(x, y) == self.occupied(y, self.spec_stride() - 1 - x),
    {
        let s = self.stride;
        let mut v: Vec<bool> = Vec::new();
        let mut x: usize = 0;
        while x < s
            invariant
                self.wf(),
                s == self.stride,
                x <= s,
                v@.len() == x * s,
                forall|i: int, j: int|
                    0 <= i < s && 0 <= j < x ==> #[trigger] v@[j * s + i] == self.occupied(j, s - 1 - i),
            decreases s - x,
        {
            let mut k: usize = 0;
            while k < s
                invariant
                    self.wf(),
                    s == self.stride,
                    x < s,
                    k <= s,
                    v@.len() == x * s + k,
                    forall|i: int, j: int|
                        0 <= i < s && 0 <= j < x ==> #[trigger] v@[j * s + i] == self.occupied(j, s - 1 - i),
                    forall|i: int| 0 <= i < k ==> #[trigger] v@[x * s + i] == self.occupied(x as int, s - 1 - i),
                decreases s - k,
            {
                proof {
                    lemma_index_bound(k as int, x as int, s as int, s as int);
                }
                let b = self.get_block(x, s - 1 - k);
                v.push(b);
                assert forall|i: int, j: int|
                    0 <= i < s && 0 <= j < x implies #[trigger] v@[j * s + i] == self.occupied(j, s - 1 - i) by {
                    lemma_index_bound(i, j, s as int, x as int);
                }
                k = k + 1;
            }
            proof {
                assert((x + 1) * s == x * s + s) by (nonlinear_arith);
            }
            x = x + 1;
        }
        let m = BlockMatrix { stride: s, data: v };
        assert forall|x: int, y: int| #[trigger] m.occupied(x, y) == self.occupied(y, s - 1 - x) by {
            if 0 <= x < s && 0 <= y < s {
                lemma_index_bound(x, y, s as int, s as int);
            }
        }
        m
    }
}


/// A playing piece: a name, a colour and its four rotation states, each a
/// quarter turn clockwise from the one before.
pub struct Piece {
    pub name: String,
    pub color: Color,
    pub rotations: Vec<BlockMatrix>,
}

impl Piece {
    /// The piece's invariant: four square matrices of one stride, each the
    /// previous turned a quarter clockwise, each with at least one block.
    pub open spec fn wf(&self) -> bool {
        &&& self.rotations@.len() == 4
        &&& forall|k: int| 0 <= k < 4 ==> (#[trigger] self.rotations@[k]).wf()
        &&& forall|k: int| 0 <= k < 4 ==> (#[trigger] self.rotations@[k]).spec_stride() == self.stride()
        &&& self.stride() * self.stride() <= usize::MAX
        &&& self.stride() <= i32::MAX
        &&& forall|k: int, x: int, y: int| 0 <= k < 3 ==> #[trigger] self.occupied(k + 1, x, y) == self.occupied(k, y, self.stride() - 1 - x)
        &&& forall|k: int| 0 <= k < 4 ==> #[trigger] self.has_block(k)
    }

    /// The piece's colour.
    pub open spec fn spec_color(&self) -> Color {
        self.color
    }

    /// The piece's colour.
    pub fn get_color(&self) -> (c: Color)
        ensures
            c == self.spec_color(),
    {
        self.color
    }

    /// The side of the square matrices.
    pub open spec fn stride(&self) -> int {
        self.rotations@[0].spec_stride()
    }

    /// Whether the block at (x, y) is set in rotation state `rotation`
    /// (taken modulo 4).
    pub open spec fn occupied(&self, rotation: int, x: int, y: int) -> bool {
        self.rotations@[rotation % 4].occupied(x, y)
    }

    /// The blocks of rotation state `rotation` (taken modulo 4) in row-major
    /// order, as (x, y).
    pub open spec fn coords(&self, rotation: int) -> Seq<(usize, usize)> {
        self.rotations@[rotation % 4].coords()
    }

    /// Whether rotation state `rotation` has a block.
    pub open spec fn has_block(&self, rotation: int) -> bool {
        exists|x: int, y: int| self.occupied(rotation, x, y)
    }

    /// Every rotation state has a block; this gives one.
    pub proof fn lemma_block(&self, rotation: int) -> (c: (int, int))
        requires
            self.wf(),
            rotation >= 0,
        ensures
            self.occupied(rotation, c.0, c.1),
    {
        let r4 = rotation % 4;
        assert(self.has_block(r4));
        let (x, y) = choose|x: int, y: int| self.occupied(r4, x, y);
        assert(self.occupied(rotation, x, y));
        (x, y)
    }

    /// The blocks lie inside the matrix, whose side fits in an `i32`.
    pub proof fn lemma_occupied_inside(&self, rotation: int, x: int, y: int)
        requires
            self.wf(),
            self.occupied(rotation, x, y),
        ensures
            0 <= x < self.stride(),
            0 <= y < self.stride(),
            self.stride() <= i32::MAX,
    {
        if rotation < 0 {
            assert(0 <= rotation % 4 < 4);
        }
    }

    /// The bottom row of blocks exists: `max_y` names it.
    pub proof fn lemma_max_y(&self, rotation: int)
        requires
            self.wf(),
            rotation >= 0,
        ensures
            self.is_max_y(rotation, self.max_y(rotation)),
    {
        let (bx, by) = self.lemma_block(rotation);
        self.lemma_occupied_inside(rotation, bx, by);
        self.lemma_max_y_from(rotation, self.stride() - 1);
    }

    proof fn lemma_max_y_from(&self, rotation: int, y: int)
        requires
            self.wf(),
            rotation >= 0,
            y < self.stride(),
            forall|bx: int, by: int| #[trigger] self.occupied(rotation, bx, by) ==> by <= y,
        ensures
            exists|m: int| self.is_max_y(rotation, m),
        decreases y + 1,
    {
        let (bx, by) = self.lemma_block(rotation);
        self.lemma_occupied_inside(rotation, bx, by);
        if self.row_has_block(rotation, y) {
            assert(self.is_max_y(rotation, y));
        } else {
            assert forall|bx2: int, by2: int| #[trigger] self.occupied(rotation, bx2, by2) implies by2 <= y - 1 by {
                if by2 == y {
                    assert(self.row_has_block(rotation, y));
                }
            }
            self.lemma_max_y_from(rotation, y - 1);
        }
    }

    /// Whether column `x` of rotation state `rotation` has a block.
    pub open spec fn column_has_block(&self, rotation: int, x: int) -> bool {
        exists|y: int| self.occupied(rotation, x, y)
    }

    /// Whether row `y` of rotation state `rotation` has a block.
    pub open spec fn row_has_block(&self, rotation: int, y: int) -> bool {
        exists|x: int| self.occupied(rotation, x, y)
    }

    /// Whether `x` is the leftmost column with a block.
    pub open spec fn is_min_x(&self, rotation: int, x: int) -> bool {
        self.column_has_block(rotation, x) && forall|bx: int, by: int| #[trigger] self.occupied(rotation, bx, by) ==> x <= bx
    }

    /// Whether `x` is the rightmost column with a block.
    pub open spec fn is_max_x(&self, rotation: int, x: int) -> bool {
        self.column_has_block(rotation, x) && forall|bx: int, by: int| #[trigger] self.occupied(rotation, bx, by) ==> bx <= x
    }

    /// Whether `y` is the topmost row with a block.
    pub open spec fn is_min_y(&self, rotation: int, y: int) -> bool {
        self.row_has_block(rotation, y) && forall|bx: int, by: int| #[trigger] self.occupied(rotation, bx, by) ==> y <= by
    }

    /// Whether `y` is the bottom row with a block.
    pub open spec fn is_max_y(&self, rotation: int, y: int) -> bool {
        self.row_has_block(rotation, y) && forall|bx: int, by: int| #[trigger] self.occupied(rotation, bx, by) ==> by <= y
    }

    pub open spec fn min_x(&self, rotation: int) -> int {
        choose|x: int| self.is_min_x(rotation, x)
    }

    pub open spec fn max_x(&self, rotation: int) -> int {
        choose|x: int| self.is_max_x(rotation, x)
    }

    pub open spec fn min_y(&self, rotation: int) -> int {
        choose|y: int| self.is_min_y(rotation, y)
    }

    pub open spec fn max_y(&self, rotation: int) -> int {
        choose|y: int| self.is_max_y(rotation, y)
    }

    /// A piece whose first rotation state is given by `rows` (non-zero = block).
    fn new(name: &str, color: Color, rows: &Vec<Vec<u8>>) -> (p: Self)
        requires
            is_square(rows@),
            rows@.len() * rows@.len() <= usize::MAX,
            rows@.len() <= i32::MAX,
            exists|x: int, y: int| 0 <= x < rows@.len() && 0 <= y < rows@.len() && rows@[y]@[x] != 0,
        ensures
            p.wf(),
            p.name@ == name@,
            p.color == color,
            p.stride() == rows@.len(),
            forall|x: int, y: int| #[trigger] p.occupied(0, x, y) <==> (0 <= x < rows@.len() && 0 <= y < rows@.len() && rows@[y]@[x] != 0),
    {
        let a = BlockMatrix::new(rows);
        let b = a.rotate();
        let c = b.rotate();
        let d = c.rotate();
        let mut rotations: Vec<BlockMatrix> = Vec::new();
        rotations.push(a);
        rotations.push(b);
        rotations.push(c);
        rotations.push(d);
        let p = Self { name: String::from_str(name), color, rotations };
        let ghost n = rows@.len() as int;
        assert forall|x: int, y: int| #[trigger] p.occupied(0, x, y) <==> (0 <= x < n && 0 <= y < n && rows@[y]@[x] != 0) by {
            assert(p.rotations@[0] == a);
        }
        assert(p.rotations@[1] == b);
        assert(p.rotations@[2] == c);
        assert(p.rotations@[3] == d);
        let ghost (wx, wy) = choose|x: int, y: int| 0 <= x < n && 0 <= y < n && rows@[y]@[x] != 0;
        assert(p.occupied(0, wx, wy));
        assert(p.occupied(1, n - 1 - wy, wx));
        assert(p.occupied(2, n - 1 - wx, n - 1 - wy));
        assert(p.occupied(3, wy, n - 1 - wx));
        p
    }

    /// The inclusive bounding box `((x1, y1), (x2, y2))` of the blocks of
    /// rotation state `rotation` (taken modulo 4).
    pub fn bounds(&self, rotation: usize) -> (r: ((usize, usize), (usize, usize)))
        requires
            self.wf(),
        ensures
            forall|x: int, y: int| #[trigger] self.occupied(rotation as int, x, y) ==>
                r.0.0 <= x <= r.1.0 && r.0.1 <= y <= r.1.1,
            self.column_has_block(rotation as int, r.0.0 as int),
            self.column_has_block(rotation as int, r.1.0 as int),
            self.row_has_block(rotation as int, r.0.1 as int),
            self.row_has_block(rotation as int, r.1.1 as int),
            r.1.0 < self.stride(),
            r.1.1 < self.stride(),
            r.0.0 == self.min_x(rotation as int),
            r.1.0 == self.max_x(rotation as int),
            r.0.1 == self.min_y(rotation as int),
            r.1.1 == self.max_y(rotation as int),
    {
        let coords = self.iter_coords(rotation);
        let ghost rot = rotation as int;
        let mut x1 = usize::MAX;
        let mut x2 = usize::MIN;
        let mut y1 = usize::MAX;
        let mut y2 = usize::MIN;
        let mut i: usize = 0;
        let ghost mut k1: int = 0;
        let ghost mut k2: int = 0;
        let ghost mut k3: int = 0;
        let ghost mut k4: int = 0;
        proof {
            let r4 = rot % 4;
            assert(self.has_block(r4));
            let (wx, wy) = choose|x: int, y: int| self.occupied(r4, x, y);
            assert(self.occupied(rot, wx, wy));
        }
        while i < coords.len()
            invariant
                self.wf(),
                i <= coords@.len(),
                forall|k: int| 0 <= k < coords@.len() ==> self.occupied(rot, #[trigger] coords@[k].0 as int, coords@[k].1 as int),
                forall|x: int, y: int| #[trigger] self.occupied(rot, x, y) ==> exists|k: int|
                    0 <= k < coords@.len() && coords@[k].0 == x && coords@[k].1 == y,
                forall|k: int| 0 <= k < i ==> x1 <= #[trigger] coords@[k].0 <= x2 && y1 <= coords@[k].1 <= y2,
                i > 0 ==> 0 <= k1 < i && coords@[k1].0 == x1,
                i > 0 ==> 0 <= k2 < i && coords@[k2].0 == x2,
                i > 0 ==> 0 <= k3 < i && coords@[k3].1 == y1,
                i > 0 ==> 0 <= k4 < i && coords@[k4].1 == y2,
            decreases coords@.len() - i,
        {
            let (x, y) = coords[i];
            if i == 0 || x < x1 {
                x1 = x;
                proof { k1 = i as int; }
            }
            if i == 0 || x > x2 {
                x2 = x;
                proof { k2 = i as int; }
            }
            if i == 0 || y < y1 {
                y1 = y;
                proof { k3 = i as int; }
            }
            if i == 0 || y > y2 {
                y2 = y;
                proof { k4 = i as int; }
            }
            i = i + 1;
        }
        proof {
            let r4 = rot % 4;
            assert(self.has_block(r4));
            let (wx, wy) = choose|x: int, y: int| self.occupied(r4, x, y);
            assert(self.occupied(rot, wx, wy));
            assert(coords@.len() > 0);
            assert(self.occupied(rot, x1 as int, coords@[k1].1 as int));
            assert(self.occupied(rot, x2 as int, coords@[k2].1 as int));
            let w1 = coords@[k1].1 as int;
            let w2 = coords@[k2].1 as int;
            assert(self.occupied(rot, x1 as int, w1));
            assert(self.occupied(rot, x2 as int, w2));
            assert(self.column_has_block(rot, x1 as int));
            assert(self.column_has_block(rot, x2 as int));
            assert(self.occupied(rot, coords@[k3].0 as int, y1 as int));
            assert(self.occupied(rot, coords@[k4].0 as int, y2 as int));
            assert forall|x: int, y: int| #[trigger] self.occupied(rot, x, y) implies
                x1 <= x <= x2 && y1 <= y <= y2 by {
                let k = choose|k: int| 0 <= k < coords@.len() && coords@[k].0 == x && coords@[k].1 == y;
                assert(x1 <= coords@[k].0 <= x2);
            }
            assert(self.is_min_x(rot, x1 as int));
            assert(self.is_max_x(rot, x2 as int));
            assert(self.is_min_y(rot, y1 as int));
            assert(self.is_max_y(rot, y2 as int));
            let a = self.min_x(rot);
            assert(self.is_min_x(rot, a));
            let a2 = self.max_x(rot);
            assert(self.is_max_x(rot, a2));
            let a3 = self.min_y(rot);
            assert(self.is_min_y(rot, a3));
            let a4 = self.max_y(rot);
            assert(self.is_max_y(rot, a4));
            let (ax, ay) = choose|bx: int, by: int| self.occupied(rot, bx, by) && bx == a;
            let (bx2, by2) = choose|bx: int, by: int| self.occupied(rot, bx, by) && bx == a2;
            let (cx, cy) = choose|bx: int, by: int| self.occupied(rot, bx, by) && by == a3;
            let (dx, dy) = choose|bx: int, by: int| self.occupied(rot, bx, by) && by == a4;
            let (ex, ey) = choose|bx: int, by: int| self.occupied(rot, bx, by) && bx == x1;
            let (fx, fy) = choose|bx: int, by: int| self.occupied(rot, bx, by) && bx == x2;
            let (gx, gy) = choose|bx: int, by: int| self.occupied(rot, bx, by) && by == y1;
            let (hx, hy) = choose|bx: int, by: int| self.occupied(rot, bx, by) && by == y2;
        }
        ((x1, y1), (x2, y2))
    }

    /// The blocks of the piece placed at `position`, at `intensity`
    /// thousandths of its colour.
    pub fn draw(&self, position: &Position, rotation: usize, intensity: u32) -> (r: Vec<Block>)
        requires
            self.wf(),
            intensity <= 1000,
            forall|bx: int, by: int| #[trigger] self.occupied(rotation as int, bx, by) ==> 0 <= position.x + bx
                && 0 <= position.y + by,
        ensures
            r@ == point_blocks(self.coords(rotation as int), position.x as int, position.y as int, faded(self.spec_color(), intensity as int)),
    {
        let coords = self.iter_coords(rotation);
        let ghost rot = rotation as int;
        assert(points_fit(coords@, position.x as int, position.y as int)) by {
            assert forall|k: int| 0 <= k < coords@.len() implies {
                &&& (#[trigger] coords@[k]).0 <= u32::MAX && coords@[k].1 <= u32::MAX
                &&& 0 <= position.x + coords@[k].0 <= u32::MAX && 0 <= position.y + coords@[k].1 <= u32::MAX
            } by {
                assert(self.occupied(rot, coords@[k].0 as int, coords@[k].1 as int));
                self.lemma_occupied_inside(rot, coords@[k].0 as int, coords@[k].1 as int);
            }
        }
        let color = faded_value(self.color, intensity);
        let mut r: Vec<Block> = Vec::new();
        push_points(&mut r, &coords, position.x as i64, position.y as i64, color);
        r
    }

    /// The (x, y) offsets of the blocks of rotation state `rotation` (taken
    /// modulo 4), row by row.
    pub fn iter_coords(&self, rotation: usize) -> (r: Vec<(usize, usize)>)
        requires
            self.wf(),
        ensures
            r@ == self.coords(rotation as int),
            row_major_sorted(r@),
            forall|i: int| 0 <= i < r@.len() ==> self.occupied(rotation as int, #[trigger] r@[i].0 as int, r@[i].1 as int),
            forall|x: int, y: int| #[trigger] self.occupied(rotation as int, x, y) ==> exists|i: int|
                0 <= i < r@.len() && r@[i].0 == x && r@[i].1 == y,
            forall|i: int| 0 <= i < r@.len() ==> (#[trigger] r@[i]).0 < self.stride() && r@[i].1 < self.stride(),
    {
        let m = &self.rotations[rotation % 4];
        let r = m.iter_coords();
        assert forall|i: int| 0 <= i < r@.len() implies (#[trigger] r@[i]).0 < self.stride() && r@[i].1 < self.stride() by {
            assert(m.occupied(r@[i].0 as int, r@[i].1 as int));
        }
        assert forall|x: int, y: int| #[trigger] self.occupied(rotation as int, x, y) implies exists|i: int|
                0 <= i < r@.len() && r@[i].0 == x && r@[i].1 == y by {
            assert(m.occupied(x, y));
        }
        r
    }
}


/// The letter that names the `i`-th piece of a catalog.
pub open spec fn piece_letter(i: int) -> char {
    if i == 0 { 'I' } else if i == 1 { 'O' } else if i == 2 { 'J' } else if i == 3 { 'L' }
    else if i == 4 { 'S' } else if i == 5 { 'Z' } else { 'T' }
}

/// The packed colour of the `i`-th piece of a catalog.
pub open spec fn piece_color(i: int) -> u32 {
    if i == 0 { 0x00ffff } else if i == 1 { 0xffff00 } else if i == 2 { 0x0000ff }
    else if i == 3 { 0xffa500 } else if i == 4 { 0x00ff00 } else if i == 5 { 0xff0000 }
    else { 0xaa00ff }
}

/// The blocks shared by both catalogs for the J, L, S, Z and T pieces, on a
/// 3x3 matrix.
pub open spec fn three_block(i: int, x: int, y: int) -> bool {
    if i == 2 {
        (x == 0 && y == 0) || (y == 1 && 0 <= x < 3)
    } else if i == 3 {
        (x == 2 && y == 0) || (y == 1 && 0 <= x < 3)
    } else if i == 4 {
        (y == 0 && (x == 1 || x == 2)) || (y == 1 && (x == 0 || x == 1))
    } else if i == 5 {
        (y == 0 && (x == 0 || x == 1)) || (y == 1 && (x == 1 || x == 2))
    } else {
        (x == 1 && y == 0) || (y == 1 && 0 <= x < 3)
    }
}

/// The first rotation state of the `i`-th piece of the standard catalog.
pub open spec fn standard_block(i: int, x: int, y: int) -> bool {
    if i == 0 {
        y == 1 && 0 <= x < 4
    } else if i == 1 {
        0 <= x < 2 && 0 <= y < 2
    } else {
        three_block(i, x, y)
    }
}

/// The matrix side of the `i`-th piece of the standard catalog.
pub open spec fn standard_stride(i: int) -> int {
    if i == 0 { 4 } else if i == 1 { 2 } else { 3 }
}

/// The first rotation state of the `i`-th piece of the centred catalog.
pub open spec fn ttc_block(i: int, x: int, y: int) -> bool {
    if i == 0 {
        y == 2 && 1 <= x < 5
    } else if i == 1 {
        1 <= x < 3 && 0 <= y < 2
    } else {
        three_block(i, x, y)
    }
}

/// The matrix side of the `i`-th piece of the centred catalog.
pub open spec fn ttc_stride(i: int) -> int {
    if i == 0 { 5 } else { 3 }
}

/// Whether `p` is the `i`-th piece of a catalog, with the given first
/// rotation state and stride.
pub open spec fn catalog_piece(p: Piece, i: int, stride: int, block: spec_fn(int, int) -> bool) -> bool {
    &&& p.wf()
    &&& p.name@ == seq![piece_letter(i)]
    &&& packed(p.color.r, p.color.g, p.color.b) == piece_color(i)
    &&& p.stride() == stride
    &&& forall|x: int, y: int| #[trigger] p.occupied(0, x, y) <==> block(x, y)
}

/// A catalog piece is well formed, with the stated stride.
pub proof fn lemma_catalog_piece(p: Piece, i: int, stride: int, block: spec_fn(int, int) -> bool)
    requires
        catalog_piece(p, i, stride, block),
    ensures
        p.wf(),
        p.stride() == stride,
        forall|x: int, y: int| #[trigger] p.occupied(0, x, y) <==> block(x, y),
{
}

fn standard_i() -> (p: Piece)
    ensures
        catalog_piece(p, 0, standard_stride(0), |x: int, y: int| standard_block(0, x, y)),
{
    let rows: Vec<Vec<u8>> = vec![
        vec![0, 0, 0, 0],
        vec![1, 1, 1, 1],
        vec![0, 0, 0, 0],
        vec![0, 0, 0, 0],
    ];
    assert(rows@[1]@[0] != 0);
    let p = Piece::new("I", Color::from_argb32(0x00ffff), &rows);
    proof {
        reveal_strlit("I");
    }
    assert forall|x: int, y: int| #[trigger] p.occupied(0, x, y) <==> standard_block(0, x, y) by {
        if 0 <= x < 4 && 0 <= y < 4 {
            assert(rows@[y]@[x] == if standard_block(0, x, y) { 1u8 } else { 0u8 });
        }
    }
    assert(p.name@ == seq!['I']);
    assert(packed(p.color.r, p.color.g, p.color.b) == 0x00ffff);
    p
}

fn standard_o() -> (p: Piece)
    ensures
        catalog_piece(p, 1, standard_stride(1), |x: int, y: int| standard_block(1, x, y)),
{
    let rows: Vec<Vec<u8>> = vec![
        vec![1, 1],
        vec![1, 1],
    ];
    assert(rows@[0]@[0] != 0);
    let p = Piece::new("O", Color::from_argb32(0xffff00), &rows);
    proof {
        reveal_strlit("O");
    }
    assert forall|x: int, y: int| #[trigger] p.occupied(0, x, y) <==> standard_block(1, x, y) by {
        if 0 <= x < 2 && 0 <= y < 2 {
            assert(rows@[y]@[x] == if standard_block(1, x, y) { 1u8 } else { 0u8 });
        }
    }
    assert(p.name@ == seq!['O']);
    assert(packed(p.color.r, p.color.g, p.color.b) == 0xffff00);
    p
}

fn standard_j() -> (p: Piece)
    ensures
        catalog_piece(p, 2, standard_stride(2), |x: int, y: int| standard_block(2, x, y)),
{
    let rows: Vec<Vec<u8>> = vec![
        vec![1, 0, 0],
        vec![1, 1, 1],
        vec![0, 0, 0],
    ];
    assert(rows@[0]@[0] != 0);
    let p = Piece::new("J", Color::from_argb32(0x0000ff), &rows);
    proof {
        reveal_strlit("J");
    }
    assert forall|x: int, y: int| #[trigger] p.occupied(0, x, y) <==> standard_block(2, x, y) by {
        if 0 <= x < 3 && 0 <= y < 3 {
            assert(rows@[y]@[x] == if standard_block(2, x, y) { 1u8 } else { 0u8 });
        }
    }
    assert(p.name@ == seq!['J']);
    assert(packed(p.color.r, p.color.g, p.color.b) == 0x0000ff);
    p
}

fn standard_l() -> (p: Piece)
    ensures
        catalog_piece(p, 3, standard_stride(3), |x: int, y: int| standard_block(3, x, y)),
{
    let rows: Vec<Vec<u8>> = vec![
        vec![0, 0, 1],
        vec![1, 1, 1],
        vec![0, 0, 0],
    ];
    assert(rows@[0]@[2] != 0);
    let p = Piece::new("L", Color::from_argb32(0xffa500), &rows);
    proof {
        reveal_strlit("L");
    }
    assert forall|x: int, y: int| #[trigger] p.occupied(0, x, y) <==> standard_block(3, x, y) by {
        if 0 <= x < 3 && 0 <= y < 3 {
            assert(rows@[y]@[x] == if standard_block(3, x, y) { 1u8 } else { 0u8 });
        }
    }
    assert(p.name@ == seq!['L']);
    assert(packed(p.color.r, p.color.g, p.color.b) == 0xffa500);
    p
}

fn standard_s() -> (p: Piece)
    ensures
        catalog_piece(p, 4, standard_stride(4), |x: int, y: int| standard_block(4, x, y)),
{
    let rows: Vec<Vec<u8>> = vec![
        vec![0, 1, 1],
        vec![1, 1, 0],
        vec![0, 0, 0],
    ];
    assert(rows@[0]@[1] != 0);
    let p = Piece::new("S", Color::from_argb32(0x00ff00), &rows);
    proof {
        reveal_strlit("S");
    }
    assert forall|x: int, y: int| #[trigger] p.occupied(0, x, y) <==> standard_block(4, x, y) by {
        if 0 <= x < 3 && 0 <= y < 3 {
            assert(rows@[y]@[x] == if standard_block(4, x, y) { 1u8 } else { 0u8 });
        }
    }
    assert(p.name@ == seq!['S']);
    assert(packed(p.color.r, p.color.g, p.color.b) == 0x00ff00);
    p
}

fn standard_z() -> (p: Piece)
    ensures
        catalog_piece(p, 5, standard_stride(5), |x: int, y: int| standard_block(5, x, y)),
{
    let rows: Vec<Vec<u8>> = vec![
        vec![1, 1, 0],
        vec![0, 1, 1],
        vec![0, 0, 0],
    ];
    assert(rows@[0]@[0] != 0);
    let p = Piece::new("Z", Color::from_argb32(0xff0000), &rows);
    proof {
        reveal_strlit("Z");
    }
    assert forall|x: int, y: int| #[trigger] p.occupied(0, x, y) <==> standard_block(5, x, y) by {
        if 0 <= x < 3 && 0 <= y < 3 {
            assert(rows@[y]@[x] == if standard_block(5, x, y) { 1u8 } else { 0u8 });
        }
    }
    assert(p.name@ == seq!['Z']);
    assert(packed(p.color.r, p.color.g, p.color.b) == 0xff0000);
    p
}

fn standard_t() -> (p: Piece)
    ensures
        catalog_piece(p, 6, standard_stride(6), |x: int, y: int| standard_block(6, x, y)),
{
    let rows: Vec<Vec<u8>> = vec![
        vec![0, 1, 0],
        vec![1, 1, 1],
        vec![0, 0, 0],
    ];
    assert(rows@[0]@[1] != 0);
    let p = Piece::new("T", Color::from_argb32(0xaa00ff), &rows);
    proof {
        reveal_strlit("T");
    }
    assert forall|x: int, y: int| #[trigger] p.occupied(0, x, y) <==> standard_block(6, x, y) by {
        if 0 <= x < 3 && 0 <= y < 3 {
            assert(rows@[y]@[x] == if standard_block(6, x, y) { 1u8 } else { 0u8 });
        }
    }
    assert(p.name@ == seq!['T']);
    assert(packed(p.color.r, p.color.g, p.color.b) == 0xaa00ff);
    p
}

fn ttc_i() -> (p: Piece)
    ensures
        catalog_piece(p, 0, ttc_stride(0), |x: int, y: int| ttc_block(0, x, y)),
{
    let rows: Vec<Vec<u8>> = vec![
        vec![0, 0, 0, 0, 0],
        vec![0, 0, 0, 0, 0],
        vec![0, 1, 1, 1, 1],
        vec![0, 0, 0, 0, 0],
        vec![0, 0, 0, 0, 0],
    ];
    assert(rows@[2]@[1] != 0);
    let p = Piece::new("I", Color::from_argb32(0x00ffff), &rows);
    proof {
        reveal_strlit("I");
    }
    assert forall|x: int, y: int| #[trigger] p.occupied(0, x, y) <==> ttc_block(0, x, y) by {
        if 0 <= x < 5 && 0 <= y < 5 {
            assert(rows@[y]@[x] == if ttc_block(0, x, y) { 1u8 } else { 0u8 });
        }
    }
    assert(p.name@ == seq!['I']);
    assert(packed(p.color.r, p.color.g, p.color.b) == 0x00ffff);
    p
}

fn ttc_o() -> (p: Piece)
    ensures
        catalog_piece(p, 1, ttc_stride(1), |x: int, y: int| ttc_block(1, x, y)),
{
    let rows: Vec<Vec<u8>> = vec![
        vec![0, 1, 1],
        vec![0, 1, 1],
        vec![0, 0, 0],
    ];
    assert(rows@[0]@[1] != 0);
    let p = Piece::new("O", Color::from_argb32(0xffff00), &rows);
    proof {
        reveal_strlit("O");
    }
    assert forall|x: int, y: int| #[trigger] p.occupied(0, x, y) <==> ttc_block(1, x, y) by {
        if 0 <= x < 3 && 0 <= y < 3 {
            assert(rows@[y]@[x] == if ttc_block(1, x, y) { 1u8 } else { 0u8 });
        }
    }
    assert(p.name@ == seq!['O']);
    assert(packed(p.color.r, p.color.g, p.color.b) == 0xffff00);
    p
}

fn ttc_j() -> (p: Piece)
    ensures
        catalog_piece(p, 2, ttc_stride(2), |x: int, y: int| ttc_block(2, x, y)),
{
    let rows: Vec<Vec<u8>> = vec![
        vec![1, 0, 0],
        vec![1, 1, 1],
        vec![0, 0, 0],
    ];
    assert(rows@[0]@[0] != 0);
    let p = Piece::new("J", Color::from_argb32(0x0000ff), &rows);
    proof {
        reveal_strlit("J");
    }
    assert forall|x: int, y: int| #[trigger] p.occupied(0, x, y) <==> ttc_block(2, x, y) by {
        if 0 <= x < 3 && 0 <= y < 3 {
            assert(rows@[y]@[x] == if ttc_block(2, x, y) { 1u8 } else { 0u8 });
        }
    }
    assert(p.name@ == seq!['J']);
    assert(packed(p.color.r, p.color.g, p.color.b) == 0x0000ff);
    p
}

fn ttc_l() -> (p: Piece)
    ensures
        catalog_piece(p, 3, ttc_stride(3), |x: int, y: int| ttc_block(3, x, y)),
{
    let rows: Vec<Vec<u8>> = vec![
        vec![0, 0, 1],
        vec![1, 1, 1],
        vec![0, 0, 0],
    ];
    assert(rows@[0]@[2] != 0);
    let p = Piece::new("L", Color::from_argb32(0xffa500), &rows);
    proof {
        reveal_strlit("L");
    }
    assert forall|x: int, y: int| #[trigger] p.occupied(0, x, y) <==> ttc_block(3, x, y) by {
        if 0 <= x < 3 && 0 <= y < 3 {
            assert(rows@[y]@[x] == if ttc_block(3, x, y) { 1u8 } else { 0u8 });
        }
    }
    assert(p.name@ == seq!['L']);
    assert(packed(p.color.r, p.color.g, p.color.b) == 0xffa500);
    p
}

fn ttc_s() -> (p: Piece)
    ensures
        catalog_piece(p, 4, ttc_stride(4), |x: int, y: int| ttc_block(4, x, y)),
{
    let rows: Vec<Vec<u8>> = vec![
        vec![0, 1, 1],
        vec![1, 1, 0],
        vec![0, 0, 0],
    ];
    assert(rows@[0]@[1] != 0);
    let p = Piece::new("S", Color::from_argb32(0x00ff00), &rows);
    proof {
        reveal_strlit("S");
    }
    assert forall|x: int, y: int| #[trigger] p.occupied(0, x, y) <==> ttc_block(4, x, y) by {
        if 0 <= x < 3 && 0 <= y < 3 {
            assert(rows@[y]@[x] == if ttc_block(4, x, y) { 1u8 } else { 0u8 });
        }
    }
    assert(p.name@ == seq!['S']);
    assert(packed(p.color.r, p.color.g, p.color.b) == 0x00ff00);
    p
}

fn ttc_z() -> (p: Piece)
    ensures
        catalog_piece(p, 5, ttc_stride(5), |x: int, y: int| ttc_block(5, x, y)),
{
    let rows: Vec<Vec<u8>> = vec![
        vec![1, 1, 0],
        vec![0, 1, 1],
        vec![0, 0, 0],
    ];
    assert(rows@[0]@[0] != 0);
    let p = Piece::new("Z", Color::from_argb32(0xff0000), &rows);
    proof {
        reveal_strlit("Z");
    }
    assert forall|x: int, y: int| #[trigger] p.occupied(0, x, y) <==> ttc_block(5, x, y) by {
        if 0 <= x < 3 && 0 <= y < 3 {
            assert(rows@[y]@[x] == if ttc_block(5, x, y) { 1u8 } else { 0u8 });
        }
    }
    assert(p.name@ == seq!['Z']);
    assert(packed(p.color.r, p.color.g, p.color.b) == 0xff0000);
    p
}

fn ttc_t() -> (p: Piece)
    ensures
        catalog_piece(p, 6, ttc_stride(6), |x: int, y: int| ttc_block(6, x, y)),
{
    let rows: Vec<Vec<u8>> = vec![
        vec![0, 1, 0],
        vec![1, 1, 1],
        vec![0, 0, 0],
    ];
    assert(rows@[0]@[1] != 0);
    let p = Piece::new("T", Color::from_argb32(0xaa00ff), &rows);
    proof {
        reveal_strlit("T");
    }
    assert forall|x: int, y: int| #[trigger] p.occupied(0, x, y) <==> ttc_block(6, x, y) by {
        if 0 <= x < 3 && 0 <= y < 3 {
            assert(rows@[y]@[x] == if ttc_block(6, x, y) { 1u8 } else { 0u8 });
        }
    }
    assert(p.name@ == seq!['T']);
    assert(packed(p.color.r, p.color.g, p.color.b) == 0xaa00ff);
    p
}

/// The seven pieces I, O, J, L, S, Z and T, each on its smallest matrix.
pub fn make_standard() -> (r: Vec<Piece>)
    ensures
        r@.len() == 7,
        forall|i: int| 0 <= i < 7 ==> catalog_piece(#[trigger] r@[i], i, standard_stride(i), |x: int, y: int| standard_block(i, x, y)),
{
    let mut r: Vec<Piece> = Vec::new();
    r.push(standard_i());
    r.push(standard_o());
    r.push(standard_j());
    r.push(standard_l());
    r.push(standard_s());
    r.push(standard_z());
    r.push(standard_t());
    r
}

/// The seven pieces I, O, J, L, S, Z and T with the I piece on a 5x5 and
/// the O piece on a 3x3 matrix, so that they turn about a common centre.
pub fn make_ttc_original() -> (r: Vec<Piece>)
    ensures
        r@.len() == 7,
        forall|i: int| 0 <= i < 7 ==> catalog_piece(#[trigger] r@[i], i, ttc_stride(i), |x: int, y: int| ttc_block(i, x, y)),
{
    let mut r: Vec<Piece> = Vec::new();
    r.push(ttc_i());
    r.push(ttc_o());
    r.push(ttc_j());
    r.push(ttc_l());
    r.push(ttc_s());
    r.push(ttc_z());
    r.push(ttc_t());
    r
}

/// The sequencer of pieces: it plays the pieces of its catalog in turn.
pub struct Bag {
    pieces: Vec<Piece>,
    index: usize,
}

impl Bag {
    pub closed spec fn wf(&self) -> bool {
        &&& self.pieces@.len() > 0
        &&& self.index < self.pieces@.len()
        &&& forall|i: int| 0 <= i < self.pieces@.len() ==> (#[trigger] self.pieces@[i]).wf()
    }

    /// The catalog.
    pub closed spec fn pieces(&self) -> Seq<Piece> {
        self.pieces@
    }

    /// The index of the current piece in the catalog.
    pub closed spec fn index(&self) -> int {
        self.index as int
    }

    /// A bag whose current piece is the first of `pieces`.
    pub fn new(pieces: Vec<Piece>) -> (b: Self)
        requires
            pieces@.len() > 0,
            forall|i: int| 0 <= i < pieces@.len() ==> (#[trigger] pieces@[i]).wf(),
        ensures
            b.wf(),
            b.pieces() == pieces@,
            b.index() == 0,
    {
        Self { pieces, index: 0 }
    }

    /// The current piece.
    pub fn current(&self) -> (p: &Piece)
        requires
            self.wf(),
        ensures
            *p == self.pieces()[self.index()],
            p.wf(),
    {
        &self.pieces[self.index]
    }

    /// The current piece is well formed.
    pub proof fn lemma_current(&self)
        requires
            self.wf(),
        ensures
            0 <= self.index() < self.pieces().len(),
            self.pieces()[self.index()].wf(),
    {
    }

    /// Moves on to the next piece of the catalog, after the last back to the
    /// first.
    pub fn advance(&mut self)
        requires
            old(self).wf(),
        ensures
            final(self).wf(),
            final(self).pieces() == old(self).pieces(),
            final(self).index() == (old(self).index() + 1) % (old(self).pieces().len() as int),
    {
        if self.index < self.pieces.len() - 1 {
            self.index = self.index + 1;
        } else {
            self.index = 0;
        }
        proof {
            let n = old(self).pieces@.len() as int;
            let i = old(self).index as int;
            if i + 1 < n {
                vstd::arithmetic::div_mod::lemma_small_mod((i + 1) as nat, n as nat);
            } else {
                vstd::arithmetic::div_mod::lemma_mod_self_0(n);
            }
        }
    }
}

} // verus!
