//! The braille canvas that scatter and line charts are drawn on.

use vstd::prelude::*;

verus! {

/// The bit of a dot, by its column and row in the cell. A braille cell is 2×4
/// dots; the glyph is `U+2800 + bits`. Layout: dots 1-3 then 7 down the left
/// column, 4-6 then 8 down the right (the Unicode ordering).
pub open spec fn dot_bit(col: int, row: int) -> u8 {
    if col == 0 {
        if row == 0 {
            0x01u8
        } else if row == 1 {
            0x02u8
        } else if row == 2 {
            0x04u8
        } else {
            0x40u8
        }
    } else {
        if row == 0 {
            0x08u8
        } else if row == 1 {
            0x10u8
        } else if row == 2 {
            0x20u8
        } else {
            0x80u8
        }
    }
}

fn dot(col: usize, row: usize) -> (r: u8)
    requires
        col < 2,
        row < 4,
    ensures
        r == dot_bit(col as int, row as int),
{
    if col == 0 {
        match row {
            0 => 0x01,
            1 => 0x02,
            2 => 0x04,
            _ => 0x40,
        }
    } else {
        match row {
            0 => 0x08,
            1 => 0x10,
            2 => 0x20,
            _ => 0x80,
        }
    }
}

/// A braille pixel grid: `w`×`h` terminal cells, each holding 2×4 dots, so the
/// effective resolution is `2w`×`4h` pixels. Origin is top-left.
pub struct Braille {
    pub w: usize,
    pub h: usize,
    pub bits: Vec<u8>,
}

/// The cells with the dot at pixel `(x, y)` lit, which changes nothing outside
/// the grid.
pub open spec fn with_dot(bits: Seq<u8>, w: int, h: int, x: int, y: int) -> Seq<u8> {
    if 0 <= x < 2 * w && 0 <= y < 4 * h {
        let i = (y / 4) * w + x / 2;
        bits.update(i, bits[i] | dot_bit(x % 2, y % 4))
    } else {
        bits
    }
}

/// Whether the dot at pixel `(x, y)` is lit.
pub open spec fn lit(bits: Seq<u8>, w: int, x: int, y: int) -> bool {
    bits[(y / 4) * w + x / 2] & dot_bit(x % 2, y % 4) != 0
}

proof fn lemma_cell(w: int, h: int, x: int, y: int)
    requires
        0 <= x < 2 * w,
        0 <= y < 4 * h,
    ensures
        0 <= (y / 4) * w,
        0 <= (y / 4) * w + x / 2 < w * h,
{
    let (cx, cy) = (x / 2, y / 4);
    assert(0 <= cy * w <= (h - 1) * w) by (nonlinear_arith)
        requires
            0 <= cy <= h - 1,
            0 <= w,
    ;
    assert((h - 1) * w + w == w * h) by (nonlinear_arith);
}

proof fn lemma_cells_apart(w: int, x: int, y: int, px: int, py: int)
    requires
        0 <= x < 2 * w,
        0 <= px < 2 * w,
        0 <= y,
        0 <= py,
        (y / 4) * w + x / 2 == (py / 4) * w + px / 2,
    ensures
        y / 4 == py / 4,
        x / 2 == px / 2,
{
    let (cx, cy, dx, dy) = (x / 2, y / 4, px / 2, py / 4);
    assert(cy == dy) by (nonlinear_arith)
        requires
            cy * w + cx == dy * w + dx,
            0 <= cx < w,
            0 <= dx < w,
    ;
}

proof fn lemma_dots(b: u8, col: int, row: int, col2: int, row2: int)
    requires
        0 <= col < 2,
        0 <= row < 4,
        0 <= col2 < 2,
        0 <= row2 < 4,
    ensures
        ((b | dot_bit(col, row)) & dot_bit(col2, row2) != 0) == (b & dot_bit(col2, row2) != 0 || (
        col == col2 && row == row2)),
{
    let d = dot_bit(col, row);
    let e = dot_bit(col2, row2);
    assert(((b | d) & e != 0) == (b & e != 0 || d & e != 0)) by (bit_vector);
    assert(d & e != 0 <==> d == e) by (bit_vector)
        requires
            d == 0x01 || d == 0x02 || d == 0x04 || d == 0x40 || d == 0x08 || d == 0x10 || d == 0x20
                || d == 0x80,
            e == 0x01 || e == 0x02 || e == 0x04 || e == 0x40 || e == 0x08 || e == 0x10 || e == 0x20
                || e == 0x80,
    ;
}

/// Lighting a dot lights that pixel and no other, and none goes out.
pub proof fn law_a_dot_lights_one_pixel(
    bits: Seq<u8>,
    w: int,
    h: int,
    x: int,
    y: int,
    px: int,
    py: int,
)
    requires
        0 < w,
        0 < h,
        bits.len() == w * h,
        0 <= px < 2 * w,
        0 <= py < 4 * h,
    ensures
        lit(with_dot(bits, w, h, x, y), w, px, py) == (lit(bits, w, px, py) || (px == x && py
            == y)),
{
    if 0 <= x < 2 * w && 0 <= y < 4 * h {
        let i = (y / 4) * w + x / 2;
        let k = (py / 4) * w + px / 2;
        lemma_cell(w, h, x, y);
        lemma_cell(w, h, px, py);
        if i == k {
            lemma_cells_apart(w, x, y, px, py);
            lemma_dots(bits[i], x % 2, y % 4, px % 2, py % 4);
        }
    }
}

/// Whether the next step of a line from `(0, 0)` to `(dx, dy)` goes across,
/// behind `i` steps across and `j` down.
pub open spec fn steps_across(dx: int, dy: int, i: int, j: int) -> bool {
    2 * (dx * (1 + j) - dy * (1 + i)) >= -dy
}

/// Whether the next step goes down.
pub open spec fn steps_down(dx: int, dy: int, i: int, j: int) -> bool {
    2 * (dx * (1 + j) - dy * (1 + i)) <= dx
}

/// The pixels of a line from `(0, 0)` to `(dx, dy)`, from `(i, j)` on.
pub open spec fn trace(dx: int, dy: int, i: int, j: int) -> Seq<(int, int)>
    decreases dx - i + dy - j,
{
    let i2 = if steps_across(dx, dy, i, j) {
        i + 1
    } else {
        i
    };
    let j2 = if steps_down(dx, dy, i, j) {
        j + 1
    } else {
        j
    };
    if i + j < i2 + j2 && i2 <= dx && j2 <= dy {
        seq![(i, j)] + trace(dx, dy, i2, j2)
    } else {
        seq![(i, j)]
    }
}

/// Whether `(i, j)` is on the way of a line: no further from it than half a
/// pixel.
pub open spec fn on_way(dx: int, dy: int, i: int, j: int) -> bool {
    let long = if dx >= dy {
        dx
    } else {
        dy
    };
    &&& 0 <= i <= dx
    &&& 0 <= j <= dy
    &&& -long <= 2 * (dx * j - dy * i) <= long
}

proof fn lemma_products(dx: int, dy: int, i: int, j: int)
    ensures
        dx * (1 + j) == dx * j + dx,
        dy * (1 + i) == dy * i + dy,
        dx * (j + 1) == dx * j + dx,
        dy * (i + 1) == dy * i + dy,
{
    assert(dx * (1 + j) == dx * j + dx) by (nonlinear_arith);
    assert(dy * (1 + i) == dy * i + dy) by (nonlinear_arith);
    assert(dx * (j + 1) == dx * j + dx) by (nonlinear_arith);
    assert(dy * (i + 1) == dy * i + dy) by (nonlinear_arith);
}

proof fn lemma_way(dx: int, dy: int, i: int, j: int)
    requires
        on_way(dx, dy, i, j),
        i < dx || j < dy,
    ensures
        steps_across(dx, dy, i, j) || steps_down(dx, dy, i, j),
        steps_across(dx, dy, i, j) ==> i < dx,
        steps_down(dx, dy, i, j) ==> j < dy,
        on_way(
            dx,
            dy,
            if steps_across(dx, dy, i, j) {
                i + 1
            } else {
                i
            },
            if steps_down(dx, dy, i, j) {
                j + 1
            } else {
                j
            },
        ),
{
    lemma_products(dx, dy, i, j);
    if i == dx {
        assert(dx * j - dy * dx <= -dx) by (nonlinear_arith)
            requires
                j <= dy - 1,
                dx >= 0,
        ;
        assert(dy * i == dy * dx);
    }
    if j == dy {
        assert(dx * dy - dy * i >= dy) by (nonlinear_arith)
            requires
                i <= dx - 1,
                dy >= 0,
        ;
        assert(dx * j == dx * dy);
    }
}

proof fn lemma_trace(dx: int, dy: int, i: int, j: int)
    requires
        on_way(dx, dy, i, j),
    ensures
        trace(dx, dy, i, j).len() > 0,
        trace(dx, dy, i, j)[0] == (i, j),
        trace(dx, dy, i, j).last() == (dx, dy),
        forall|k: int|
            0 <= k < trace(dx, dy, i, j).len() ==> on_way(
                dx,
                dy,
                (#[trigger] trace(dx, dy, i, j)[k]).0,
                trace(dx, dy, i, j)[k].1,
            ),
        forall|k: int|
            #![trigger trace(dx, dy, i, j)[k]]
            0 < k < trace(dx, dy, i, j).len() ==> neighbours(
                trace(dx, dy, i, j)[k - 1],
                trace(dx, dy, i, j)[k],
            ),
    decreases dx - i + dy - j,
{
    let t = trace(dx, dy, i, j);
    if i < dx || j < dy {
        lemma_way(dx, dy, i, j);
        let i2 = if steps_across(dx, dy, i, j) {
            i + 1
        } else {
            i
        };
        let j2 = if steps_down(dx, dy, i, j) {
            j + 1
        } else {
            j
        };
        lemma_trace(dx, dy, i2, j2);
        let rest = trace(dx, dy, i2, j2);
        assert(t =~= seq![(i, j)] + rest);
        assert forall|k: int| 0 <= k < t.len() implies on_way(
            dx,
            dy,
            (#[trigger] t[k]).0,
            t[k].1,
        ) by {
            if k > 0 {
                assert(t[k] == rest[k - 1]);
            }
        }
        assert forall|k: int| #![trigger t[k]] 0 < k < t.len() implies neighbours(
            t[k - 1],
            t[k],
        ) by {
            assert(t[k] == rest[k - 1]);
            if k > 1 {
                assert(t[k - 1] == rest[k - 2]);
            }
        }
        assert(t.last() == rest.last());
    } else {
        assert(t =~= seq![(i, j)]) by {
            lemma_products(dx, dy, i, j);
        }
    }
}

/// Whether a pixel is next to another, across, down or both, and further on.
pub open spec fn neighbours(a: (int, int), b: (int, int)) -> bool {
    &&& a.0 <= b.0 <= a.0 + 1
    &&& a.1 <= b.1 <= a.1 + 1
    &&& a != b
}

/// A line is drawn from end to end without a gap, and no pixel of it is further
/// from the straight line than half a pixel.
pub proof fn law_lines_are_straight_and_whole(dx: int, dy: int)
    requires
        0 <= dx,
        0 <= dy,
    ensures
        trace(dx, dy, 0, 0).len() > 0,
        trace(dx, dy, 0, 0)[0] == (0int, 0int),
        trace(dx, dy, 0, 0).last() == (dx, dy),
        forall|k: int|
            0 <= k < trace(dx, dy, 0, 0).len() ==> on_way(
                dx,
                dy,
                (#[trigger] trace(dx, dy, 0, 0)[k]).0,
                trace(dx, dy, 0, 0)[k].1,
            ),
        forall|k: int|
            #![trigger trace(dx, dy, 0, 0)[k]]
            0 < k < trace(dx, dy, 0, 0).len() ==> neighbours(
                trace(dx, dy, 0, 0)[k - 1],
                trace(dx, dy, 0, 0)[k],
            ),
{
    assert(dx * 0 == 0 && dy * 0 == 0);
    lemma_trace(dx, dy, 0, 0);
}

/// The distance between two coordinates.
pub open spec fn apart(a: int, b: int) -> int {
    if a <= b {
        b - a
    } else {
        a - b
    }
}

/// The coordinate `k` steps from `a` towards `b`.
pub open spec fn towards(a: int, b: int, k: int) -> int {
    if a < b {
        a + k
    } else {
        a - k
    }
}

/// The cells with every pixel of a trace lit, from `k` on, counted from
/// `(x0, y0)` towards `(x1, y1)`.
pub open spec fn with_trace(
    bits: Seq<u8>,
    w: int,
    h: int,
    ends: (int, int, int, int),
    t: Seq<(int, int)>,
    k: int,
) -> Seq<u8>
    decreases k,
{
    if k <= 0 {
        bits
    } else {
        let (x0, y0, x1, y1) = ends;
        with_dot(
            with_trace(bits, w, h, ends, t, k - 1),
            w,
            h,
            towards(x0, x1, t[k - 1].0),
            towards(y0, y1, t[k - 1].1),
        )
    }
}

/// The cells with a line drawn between two pixels.
pub open spec fn with_line(
    bits: Seq<u8>,
    w: int,
    h: int,
    x0: int,
    y0: int,
    x1: int,
    y1: int,
) -> Seq<u8> {
    let t = trace(apart(x0, x1), apart(y0, y1), 0, 0);
    with_trace(bits, w, h, (x0, y0, x1, y1), t, t.len() as int)
}

proof fn lemma_trace_goes_on(dx: int, dy: int, i: int, j: int, k: int)
    requires
        0 <= k < trace(dx, dy, 0, 0).len(),
        on_way(dx, dy, i, j),
        trace(dx, dy, 0, 0)[k] == (i, j),
        trace(dx, dy, 0, 0).skip(k) == trace(dx, dy, i, j),
    ensures
        i == dx && j == dy ==> k + 1 == trace(dx, dy, 0, 0).len(),
        i < dx || j < dy ==> {
            let i2 = if steps_across(dx, dy, i, j) {
                i + 1
            } else {
                i
            };
            let j2 = if steps_down(dx, dy, i, j) {
                j + 1
            } else {
                j
            };
            &&& k + 1 < trace(dx, dy, 0, 0).len()
            &&& trace(dx, dy, 0, 0)[k + 1] == (i2, j2)
            &&& trace(dx, dy, 0, 0).skip(k + 1) == trace(dx, dy, i2, j2)
            &&& on_way(dx, dy, i2, j2)
            &&& i2 + j2 > i + j
        },
{
    let t = trace(dx, dy, 0, 0);
    if i < dx || j < dy {
        lemma_way(dx, dy, i, j);
        let i2 = if steps_across(dx, dy, i, j) {
            i + 1
        } else {
            i
        };
        let j2 = if steps_down(dx, dy, i, j) {
            j + 1
        } else {
            j
        };
        let rest = trace(dx, dy, i2, j2);
        lemma_trace(dx, dy, i2, j2);
        assert(t.skip(k) == seq![(i, j)] + rest);
        assert(t.skip(k + 1) =~= t.skip(k).skip(1));
        assert(t.skip(k).skip(1) =~= rest);
        assert(t[k + 1] == t.skip(k + 1)[0]);
    } else {
        lemma_products(dx, dy, i, j);
        assert(trace(dx, dy, i, j) =~= seq![(i, j)]);
        assert(t.skip(k).len() == 1);
    }
}

impl Braille {
    /// Whether there is a byte for each cell, and every pixel can be counted.
    pub open spec fn wf(self) -> bool {
        &&& self.bits@.len() == self.w * self.h
        &&& 2 * self.w <= usize::MAX
        &&& 4 * self.h <= usize::MAX
    }

    /// An empty canvas.
    pub fn new(w: usize, h: usize) -> (r: Self)
        requires
            w * h <= usize::MAX,
            2 * w <= usize::MAX,
            4 * h <= usize::MAX,
        ensures
            r.wf(),
            r.w == w,
            r.h == h,
            r.bits@ == Seq::new((w * h) as nat, |i: int| 0u8),
    {
        let n: usize = w * h;
        let mut bits: Vec<u8> = Vec::new();
        while bits.len() < n
            invariant
                bits@.len() <= n,
                bits@ == Seq::new(bits@.len(), |i: int| 0u8),
            decreases n - bits.len(),
        {
            let ghost before = bits@;
            bits.push(0);
            assert(bits@ =~= Seq::new(bits@.len(), |i: int| 0u8));
        }
        Braille { w, h, bits }
    }

    /// The pixels across.
    pub fn pw(&self) -> (r: usize)
        requires
            self.wf(),
        ensures
            r == 2 * self.w,
    {
        self.w * 2
    }

    /// The pixels down.
    pub fn ph(&self) -> (r: usize)
        requires
            self.wf(),
        ensures
            r == 4 * self.h,
    {
        self.h * 4
    }

    /// Light the dot at pixel `(x, y)`; out-of-range coordinates are ignored.
    pub fn set(&mut self, x: usize, y: usize)
        requires
            old(self).wf(),
        ensures
            final(self).wf(),
            final(self).w == old(self).w,
            final(self).h == old(self).h,
            final(self).bits@ == with_dot(
                old(self).bits@,
                old(self).w as int,
                old(self).h as int,
                x as int,
                y as int,
            ),
    {
        if x >= self.pw() || y >= self.ph() {
            return;
        }
        let (cx, cy): (usize, usize) = (x / 2, y / 4);
        proof {
            lemma_cell(self.w as int, self.h as int, x as int, y as int);
            assert(self.bits.len() == self.w * self.h);
        }
        let i: usize = cy * self.w + cx;
        let b: u8 = self.bits[i] | dot(x % 2, y % 4);
        self.bits.set(i, b);
    }

    /// [`Braille::set`] for coordinates that may be before the origin, where there
    /// is nothing to light.
    pub fn set_signed(&mut self, x: i64, y: i64)
        requires
            old(self).wf(),
        ensures
            final(self).wf(),
            final(self).w == old(self).w,
            final(self).h == old(self).h,
            final(self).bits@ == with_dot(
                old(self).bits@,
                old(self).w as int,
                old(self).h as int,
                x as int,
                y as int,
            ),
    {
        let (pw, ph) = (self.pw(), self.ph());
        if x >= 0 && y >= 0 && (x as u64) < pw as u64 && (y as u64) < ph as u64 {
            self.set(x as usize, y as usize);
        }
    }

    /// Draw a line between two pixels (Bresenham), for connected `line` charts.
    pub fn line(&mut self, x0: i64, y0: i64, x1: i64, y1: i64)
        requires
            old(self).wf(),
        ensures
            final(self).wf(),
            final(self).w == old(self).w,
            final(self).h == old(self).h,
            final(self).bits@ == with_line(
                old(self).bits@,
                old(self).w as int,
                old(self).h as int,
                x0 as int,
                y0 as int,
                x1 as int,
                y1 as int,
            ),
    {
        let dx: i128 = if x0 <= x1 {
            x1 as i128 - x0 as i128
        } else {
            x0 as i128 - x1 as i128
        };
        let dy: i128 = if y0 <= y1 {
            y1 as i128 - y0 as i128
        } else {
            y0 as i128 - y1 as i128
        };
        let ghost t = trace(dx as int, dy as int, 0, 0);
        let ghost start = self.bits@;
        let ghost ends = (x0 as int, y0 as int, x1 as int, y1 as int);
        let (mut x, mut y): (i64, i64) = (x0, y0);
        let mut err: i128 = dx - dy;
        let ghost mut i: int = 0;
        let ghost mut j: int = 0;
        let ghost mut k: int = 0;
        proof {
            assert(dx * 0 == 0 && dy * 0 == 0);
            lemma_products(dx as int, dy as int, 0, 0);
            lemma_trace(dx as int, dy as int, 0, 0);
            assert(t.skip(0) =~= t);
        }
        loop
            invariant_except_break
                self.bits@ == with_trace(start, self.w as int, self.h as int, ends, t, k),
            invariant
                self.wf(),
                self.w == old(self).w,
                self.h == old(self).h,
                start == old(self).bits@,
                ends == (x0 as int, y0 as int, x1 as int, y1 as int),
                dx == apart(x0 as int, x1 as int),
                dy == apart(y0 as int, y1 as int),
                0 <= dx <= 0xffff_ffff_ffff_ffff,
                0 <= dy <= 0xffff_ffff_ffff_ffff,
                t == trace(dx as int, dy as int, 0, 0),
                0 <= k < t.len(),
                t[k] == (i, j),
                t.skip(k) == trace(dx as int, dy as int, i, j),
                on_way(dx as int, dy as int, i, j),
                x == towards(x0 as int, x1 as int, i),
                y == towards(y0 as int, y1 as int, j),
                err == dx * (1 + j) - dy * (1 + i),
            ensures
                self.bits@ == with_trace(
                    start,
                    self.w as int,
                    self.h as int,
                    ends,
                    t,
                    t.len() as int,
                ),
            decreases dx - i + dy - j,
        {
            self.set_signed(x, y);
            proof {
                lemma_trace_goes_on(dx as int, dy as int, i, j, k);
                lemma_products(dx as int, dy as int, i, j);
            }
            if x == x1 && y == y1 {
                break;
            }
            let e2: i128 = 2 * err;
            if e2 >= -dy {
                err = err - dy;
                if x0 < x1 {
                    x = x + 1;
                } else {
                    x = x - 1;
                }
            }
            if e2 <= dx {
                err = err + dx;
                if y0 < y1 {
                    y = y + 1;
                } else {
                    y = y - 1;
                }
            }
            proof {
                let (a, d) = (i, j);
                if steps_across(dx as int, dy as int, a, d) {
                    i = i + 1;
                }
                if steps_down(dx as int, dy as int, a, d) {
                    j = j + 1;
                }
                k = k + 1;
                lemma_products(dx as int, dy as int, i, j);
            }
        }
    }
}

} // verus!
