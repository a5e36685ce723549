use vstd::prelude::*;
use vstd::string::*;
use vstd::arithmetic::div_mod::{lemma_div_by_multiple, lemma_div_is_ordered};
use vstd::arithmetic::mul::{lemma_mul_inequality, lemma_mul_upper_bound};

verus! {

/// Bytes of one pixel in the frame buffer.
pub const BYTES_PER_PIXEL: i64 = 4;

/// What drawing needs to know of a frame buffer: its visible width and
/// height in pixels, and how many pixels one line of it takes in memory.
#[derive(Clone, Copy, Debug, PartialEq, Eq, Structural)]
pub struct FrameGeometry {
    pub width: i64,
    pub height: i64,
    pub pixels_per_line: i64,
}

impl FrameGeometry {
    /// Column `x` is visible: inside the width and inside one memory line.
    pub open spec fn in_x(&self, x: int) -> bool {
        0 <= x && x < self.width && x < self.pixels_per_line
    }

    /// Row `y` is visible.
    pub open spec fn in_y(&self, y: int) -> bool {
        0 <= y && y < self.height
    }

    pub fn is_in_x_range(&self, px: i64) -> (r: bool)
        ensures
            r == self.in_x(px as int),
    {
        let limit = if self.width < self.pixels_per_line {
            self.width
        } else {
            self.pixels_per_line
        };
        0 <= px && px < limit
    }

    pub fn is_in_y_range(&self, py: i64) -> (r: bool)
        ensures
            r == self.in_y(py as int),
    {
        0 <= py && py < self.height
    }

    /// The byte offset of pixel `(x, y)` from the start of the frame buffer,
    /// or `None` when the pixel is not visible (or its offset does not fit in
    /// a `usize`).
    pub fn pixel_offset(&self, x: i64, y: i64) -> (r: Option<usize>)
        ensures
            r matches Some(o) ==> self.in_x(x as int) && self.in_y(y as int) && o == (y * self.pixels_per_line + x)
                * BYTES_PER_PIXEL,
            r is None ==> !self.in_x(x as int) || !self.in_y(y as int) || (y * self.pixels_per_line + x)
                * BYTES_PER_PIXEL > usize::MAX,
    {
        if !self.is_in_x_range(x) || !self.is_in_y_range(y) {
            return None;
        }
        let (yu, xu, pu) = (y as u64, x as u64, self.pixels_per_line as u64);
        proof {
            lemma_mul_upper_bound(y as int, i64::MAX as int, self.pixels_per_line as int, i64::MAX as int);
            assert(i64::MAX * i64::MAX <= u128::MAX) by (nonlinear_arith);
        }
        let line = (yu as u128) * (pu as u128);
        let cell = (line + xu as u128) * 4;
        if cell > usize::MAX as u128 {
            return None;
        }
        Some(cell as usize)
    }

    /// The rectangle of `w` by `h` pixels at `(px, py)` is wholly visible;
    /// "Out of Range" otherwise.
    pub fn check_rect(&self, px: i64, py: i64, w: i64, h: i64) -> (r: Result<(), &'static str>)
        ensures
            r is Ok <==> self.in_x(px as int) && self.in_y(py as int) && self.in_x(px + w - 1) && self.in_y(
                py + h - 1,
            ),
            r matches Err(e) ==> e@ == "Out of Range"@,
    {
        if !self.is_in_x_range(px) || !self.is_in_y_range(py) {
            return Err("Out of Range");
        }
        let (right, bottom) = (px as i128 + w as i128 - 1, py as i128 + h as i128 - 1);
        if right < 0 || right > i64::MAX as i128 || bottom < 0 || bottom > i64::MAX as i128 {
            return Err("Out of Range");
        }
        if !self.is_in_x_range(right as i64) || !self.is_in_y_range(bottom as i64) {
            return Err("Out of Range");
        }
        Ok(())
    }
}

/// Integer division rounding toward zero, for a positive divisor.
pub open spec fn trunc_div(a: int, b: int) -> int {
    if a >= 0 {
        a / b
    } else {
        -((-a) / b)
    }
}

/// Along a line that advances `db` on one axis while it advances `da` on the
/// other, the offset on the first axis at step `ia`, rounded to the nearest
/// pixel; `None` when the line is steeper than one or `ia` lies outside
/// `[0, da]`.
pub open spec fn slope_point(da: int, db: int, ia: int) -> Option<int> {
    if da < db {
        None
    } else if da == 0 {
        Some(0)
    } else if 0 <= ia <= da {
        Some(trunc_div(trunc_div(2 * db * ia + da, da), 2))
    } else {
        None
    }
}

/// `(2 db ia + da) / da / 2` lies between zero and `db`.
proof fn lemma_slope_between(da: int, db: int, ia: int)
    requires
        0 < da,
        db <= da,
        0 <= ia <= da,
    ensures
        ({
            let n = 2 * db * ia + da;
            &&& db >= 0 ==> 0 <= trunc_div(trunc_div(n, da), 2) <= db
            &&& db < 0 ==> db <= trunc_div(trunc_div(n, da), 2) <= 0
        }),
{
    let n = 2 * db * ia + da;
    let p = db * ia;
    assert(n == 2 * p + da) by (nonlinear_arith)
        requires
            n == 2 * db * ia + da,
            p == db * ia,
    ;
    if db >= 0 {
        lemma_mul_inequality(ia, da, db);
        assert(0 <= p <= db * da) by (nonlinear_arith)
            requires
                p == db * ia,
                ia * db <= da * db,
                db >= 0,
                ia >= 0,
        ;
        assert(n <= (2 * db + 1) * da) by (nonlinear_arith)
            requires
                n == 2 * p + da,
                p <= db * da,
        ;
        lemma_div_is_ordered(n, (2 * db + 1) * da, da);
        lemma_div_by_multiple(2 * db + 1, da);
        lemma_div_is_ordered(0, n, da);
    } else {
        let b = -db;
        lemma_mul_inequality(ia, da, b);
        assert(-(b * da) <= p <= 0) by (nonlinear_arith)
            requires
                p == db * ia,
                b == -db,
                ia * b <= da * b,
                b > 0,
                ia >= 0,
        ;
        if n < 0 {
            let m = -n;
            assert(m <= (2 * b) * da) by (nonlinear_arith)
                requires
                    m == -(2 * p + da),
                    -(b * da) <= p,
                    da > 0,
            ;
            lemma_div_is_ordered(m, (2 * b) * da, da);
            lemma_div_by_multiple(2 * b, da);
            lemma_div_is_ordered(0, m, da);
        } else {
            assert(n <= 1 * da);
            lemma_div_is_ordered(n, 1 * da, da);
            lemma_div_by_multiple(1, da);
            lemma_div_is_ordered(0, n, da);
        }
    }
}

/// Where a line of slope `db / da` (at most one) stands at step `ia`.
pub fn calc_slope_point(da: i64, db: i64, ia: i64) -> (r: Option<i64>)
    ensures
        r is None <==> slope_point(da as int, db as int, ia as int) is None,
        r matches Some(v) ==> slope_point(da as int, db as int, ia as int) == Some(v as int),
{
    if da < db {
        None
    } else if da == 0 {
        Some(0)
    } else if 0 <= ia && ia <= da {
        proof {
            lemma_slope_between(da as int, db as int, ia as int);
            let (d, i) = (db as int, ia as int);
            let big: int = 0x8000_0000_0000_0000;
            if d >= 0 {
                lemma_mul_upper_bound(d, big, i, big - 1);
            } else {
                lemma_mul_upper_bound(-d, big, i, big - 1);
            }
            assert(big * (big - 1) == 0x3fff_ffff_ffff_ffff_8000_0000_0000_0000) by (nonlinear_arith)
                requires
                    big == 0x8000_0000_0000_0000,
            ;
            assert(-(big * (big - 1)) <= d * i <= big * (big - 1)) by (nonlinear_arith)
                requires
                    d >= 0 ==> d * i <= big * (big - 1),
                    d < 0 ==> (-d) * i <= big * (big - 1),
                    i >= 0,
            ;
        }
        let prod = (db as i128) * (ia as i128);
        assert(prod == (db as int) * (ia as int));
        let n = 2 * prod + da as i128;
        assert(n == 2 * (db as int) * (ia as int) + da) by (nonlinear_arith)
            requires
                n == 2 * prod + da,
                prod == (db as int) * (ia as int),
        ;
        let v = if n >= 0 {
            ((n as u128 / da as u128) / 2) as i128
        } else {
            -((((-n) as u128 / da as u128) / 2) as i128)
        };
        Some(v as i64)
    } else {
        None
    }
}

/// The distance between `a` and `b`.
pub open spec fn gap(a: int, b: int) -> int {
    if a <= b {
        b - a
    } else {
        a - b
    }
}

/// `r` steps from `a` in the direction of `b` (no step when they are equal).
pub open spec fn toward(a: int, b: int, r: int) -> int {
    if b > a {
        a + r
    } else if b < a {
        a - r
    } else {
        a
    }
}

/// Step `ia` of a line of slope `db / da`, rounded to the nearest pixel, for
/// `0 <= db <= da` and `da > 0`.
pub open spec fn rounded_step(da: int, db: int, ia: int) -> int {
    (2 * db * ia + da) / da / 2
}

/// The pixels of the line from `(x0, y0)` towards `(x1, y1)`: one for each
/// step along the axis on which the line goes further, the end point itself
/// not included.
pub open spec fn line_points(x0: int, y0: int, x1: int, y1: int) -> Seq<(int, int)> {
    let (dx, dy) = (gap(x0, x1), gap(y0, y1));
    if dx >= dy {
        Seq::new(dx as nat, |rx: int| (toward(x0, x1, rx), toward(y0, y1, rounded_step(dx, dy, rx))))
    } else {
        Seq::new(dy as nat, |ry: int| (toward(x0, x1, rounded_step(dy, dx, ry)), toward(y0, y1, ry)))
    }
}

/// `r` steps from `a` towards `b`, for `r` no further than `b`.
fn step_toward(a: i64, b: i64, r: i64) -> (v: i64)
    requires
        0 <= r <= gap(a as int, b as int),
    ensures
        v == toward(a as int, b as int, r as int),
{
    if b > a {
        a + r
    } else if b < a {
        a - r
    } else {
        a
    }
}

/// On a line with `0 <= db <= da`, step `ia` of `[0, da]` exists and lies in `[0, db]`.
proof fn lemma_rounded_step(da: int, db: int, ia: int)
    requires
        0 < da,
        0 <= db <= da,
        0 <= ia <= da,
    ensures
        slope_point(da, db, ia) == Some(rounded_step(da, db, ia)),
        0 <= rounded_step(da, db, ia) <= db,
{
    lemma_slope_between(da, db, ia);
    assert(0 <= 2 * db * ia) by (nonlinear_arith)
        requires
            db >= 0,
            ia >= 0,
    ;
}

/// The pixels to set to draw a line from `(x0, y0)` towards `(x1, y1)`, or
/// "Out of Range" when either end is not visible. Every pixel returned is
/// visible.
pub fn draw_line(g: &FrameGeometry, x0: i64, y0: i64, x1: i64, y1: i64) -> (r: Result<Vec<(i64, i64)>, &'static str>)
    ensures
        r is Ok <==> g.in_x(x0 as int) && g.in_x(x1 as int) && g.in_y(y0 as int) && g.in_y(y1 as int),
        r matches Err(e) ==> e@ == "Out of Range"@,
        r matches Ok(pts) ==> {
            let line = line_points(x0 as int, y0 as int, x1 as int, y1 as int);
            &&& pts@.len() == line.len()
            &&& forall|i: int| 0 <= i < pts@.len() ==> (pts@[i].0 as int, pts@[i].1 as int) == line[i]
            &&& forall|i: int| 0 <= i < pts@.len() ==> g.in_x(pts@[i].0 as int) && g.in_y(pts@[i].1 as int)
        },
{
    if !g.is_in_x_range(x0) || !g.is_in_x_range(x1) || !g.is_in_y_range(y0) || !g.is_in_y_range(y1) {
        return Err("Out of Range");
    }
    let dx = if x0 <= x1 {
        x1 - x0
    } else {
        x0 - x1
    };
    let dy = if y0 <= y1 {
        y1 - y0
    } else {
        y0 - y1
    };
    let ghost line = line_points(x0 as int, y0 as int, x1 as int, y1 as int);
    let mut pts: Vec<(i64, i64)> = Vec::new();
    if dx >= dy {
        let mut rx: i64 = 0;
        while rx < dx
            invariant
                0 <= rx <= dx,
                dx == gap(x0 as int, x1 as int),
                dy == gap(y0 as int, y1 as int),
                dx >= dy,
                line == line_points(x0 as int, y0 as int, x1 as int, y1 as int),
                g.in_x(x0 as int) && g.in_x(x1 as int) && g.in_y(y0 as int) && g.in_y(y1 as int),
                pts@.len() == rx,
                forall|i: int| 0 <= i < rx ==> (pts@[i].0 as int, pts@[i].1 as int) == line[i],
                forall|i: int| 0 <= i < rx ==> g.in_x(pts@[i].0 as int) && g.in_y(pts@[i].1 as int),
            decreases dx - rx,
        {
            proof {
                lemma_rounded_step(dx as int, dy as int, rx as int);
            }
            if let Some(ry) = calc_slope_point(dx, dy, rx) {
                let px = step_toward(x0, x1, rx);
                let py = step_toward(y0, y1, ry);
                pts.push((px, py));
            }
            rx = rx + 1;
        }
    } else {
        let mut ry: i64 = 0;
        while ry < dy
            invariant
                0 <= ry <= dy,
                dx == gap(x0 as int, x1 as int),
                dy == gap(y0 as int, y1 as int),
                dx < dy,
                line == line_points(x0 as int, y0 as int, x1 as int, y1 as int),
                g.in_x(x0 as int) && g.in_x(x1 as int) && g.in_y(y0 as int) && g.in_y(y1 as int),
                pts@.len() == ry,
                forall|i: int| 0 <= i < ry ==> (pts@[i].0 as int, pts@[i].1 as int) == line[i],
                forall|i: int| 0 <= i < ry ==> g.in_x(pts@[i].0 as int) && g.in_y(pts@[i].1 as int),
            decreases dy - ry,
        {
            proof {
                lemma_rounded_step(dy as int, dx as int, ry as int);
            }
            if let Some(rx) = calc_slope_point(dy, dx, ry) {
                let px = step_toward(x0, x1, rx);
                let py = step_toward(y0, y1, ry);
                pts.push((px, py));
            }
            ry = ry + 1;
        }
    }
    Ok(pts)
}

/// Columns of one character cell.
pub const FONT_WIDTH: usize = 8;

/// Rows of one character cell.
pub const FONT_HEIGHT: usize = 16;

/// The byte that marks a lit pixel in a glyph.
pub const INK: u8 = 42;

/// The pixels that glyph cells `0..k` light when the glyph is drawn at
/// `(x, y)`, in row-major order: lit cells only, and only those visible. Cell
/// `k` of a glyph is column `k % 8` of row `k / 8`.
pub open spec fn glyph_pixels(g: FrameGeometry, x: int, y: int, glyph: Seq<u8>, k: int) -> Seq<(int, int)>
    decreases k,
{
    if k <= 0 {
        Seq::empty()
    } else {
        let prev = glyph_pixels(g, x, y, glyph, k - 1);
        let (px, py) = (x + (k - 1) % 8, y + (k - 1) / 8);
        if glyph[k - 1] == INK && g.in_x(px) && g.in_y(py) {
            prev.push((px, py))
        } else {
            prev
        }
    }
}

/// The pixels to set to draw `glyph` (16 rows of 8 cells, row after row)
/// with its top left corner at `(x, y)`: its lit cells that are visible.
pub fn draw_font_fg(g: &FrameGeometry, x: i64, y: i64, glyph: &Vec<u8>) -> (r: Vec<(i64, i64)>)
    requires
        glyph@.len() == FONT_WIDTH * FONT_HEIGHT,
    ensures
        r@.len() == glyph_pixels(*g, x as int, y as int, glyph@, 128).len(),
        forall|i: int|
            0 <= i < r@.len() ==> (r@[i].0 as int, r@[i].1 as int) == glyph_pixels(*g, x as int, y as int, glyph@, 128)[i],
{
    let mut pts: Vec<(i64, i64)> = Vec::new();
    let mut k: usize = 0;
    while k < FONT_WIDTH * FONT_HEIGHT
        invariant
            k <= 128,
            glyph@.len() == 128,
            pts@.len() == glyph_pixels(*g, x as int, y as int, glyph@, k as int).len(),
            forall|i: int|
                0 <= i < pts@.len() ==> (pts@[i].0 as int, pts@[i].1 as int) == glyph_pixels(*g, x as int, y as int, glyph@, k as int)[i],
        decreases 128 - k,
    {
        let (dx, dy) = ((k % 8) as i64, (k / 8) as i64);
        if glyph[k] == INK && x <= i64::MAX - dx && y <= i64::MAX - dy {
            let (px, py) = (x + dx, y + dy);
            if g.is_in_x_range(px) && g.is_in_y_range(py) {
                pts.push((px, py));
            }
        }
        k = k + 1;
    }
    pts
}

/// Where `draw_str_fg` puts each character of `s`: one cell of 8 pixels
/// after another from `(x, y)`, on one line.
pub open spec fn str_cells(x: int, y: int, s: Seq<char>) -> Seq<(int, int, char)> {
    Seq::new(s.len(), |i: int| (x + 8 * i, y, s[i]))
}

/// Where to draw each character of `s`, written on one line from `(x, y)`:
/// `(x, y, c)` for each character `c`, in order.
pub fn draw_str_fg(x: i64, y: i64, s: &str) -> (r: Vec<(i64, i64, char)>)
    requires
        x + 8 * s@.len() <= i64::MAX,
    ensures
        r@.len() == s@.len(),
        forall|i: int| 0 <= i < r@.len() ==> (r@[i].0 as int, r@[i].1 as int, r@[i].2) == str_cells(x as int, y as int, s@)[i],
{
    let n = s.unicode_len();
    let mut out: Vec<(i64, i64, char)> = Vec::new();
    let mut i: usize = 0;
    while i < n
        invariant
            n == s@.len(),
            i <= n,
            x + 8 * n <= i64::MAX,
            out@.len() == i,
            forall|j: int| 0 <= j < i ==> (out@[j].0 as int, out@[j].1 as int, out@[j].2) == str_cells(x as int, y as int, s@)[j],
        decreases n - i,
    {
        let c = s.get_char(i);
        let cx = (x as i128 + 8 * (i as i128)) as i64;
        out.push((cx, y, c));
        i = i + 1;
    }
    out
}

/// Where the cursor stands after `s` is written from `(x, y)`: a newline
/// moves it to the start of the next text line, 16 pixels down; any other
/// character moves it one cell, 8 pixels, to the right.
pub open spec fn cursor_after(x: int, y: int, s: Seq<char>) -> (int, int)
    decreases s.len(),
{
    if s.len() == 0 {
        (x, y)
    } else {
        let (px, py) = cursor_after(x, y, s.drop_last());
        if s.last() == '\n' {
            (0, py + 16)
        } else {
            (px + 8, py)
        }
    }
}

/// Where each character of `s` other than a newline is drawn when `s` is
/// written from `(x, y)`, in order.
pub open spec fn text_cells(x: int, y: int, s: Seq<char>) -> Seq<(int, int, char)>
    decreases s.len(),
{
    if s.len() == 0 {
        Seq::empty()
    } else {
        let prev = text_cells(x, y, s.drop_last());
        let (px, py) = cursor_after(x, y, s.drop_last());
        if s.last() == '\n' {
            prev
        } else {
            prev.push((px, py, s.last()))
        }
    }
}

proof fn lemma_cursor_bounds(x: int, y: int, s: Seq<char>)
    ensures
        ({
            let (px, py) = cursor_after(x, y, s);
            &&& (if x < 0 { x } else { 0 }) <= px <= (if x > 0 { x } else { 0 }) + 8 * s.len()
            &&& y <= py <= y + 16 * s.len()
        }),
    decreases s.len(),
{
    if s.len() > 0 {
        lemma_cursor_bounds(x, y, s.drop_last());
    }
}

/// A text cursor over the frame buffer: where the next character goes.
#[derive(Clone, Copy, Debug, PartialEq, Eq, Structural)]
pub struct VramTextWriter {
    pub cursor_x: i64,
    pub cursor_y: i64,
}

impl VramTextWriter {
    /// A cursor at the top left corner.
    pub fn new() -> (r: Self)
        ensures
            r.cursor_x == 0 && r.cursor_y == 0,
    {
        VramTextWriter { cursor_x: 0, cursor_y: 0 }
    }

    /// Writes `s` at the cursor: returns where each character other than a
    /// newline is drawn, in order, and moves the cursor past the text.
    pub fn write_str(&mut self, s: &str) -> (r: Vec<(i64, i64, char)>)
        requires
            (if old(self).cursor_x > 0 { old(self).cursor_x as int } else { 0 }) + 8 * s@.len() <= i64::MAX,
            old(self).cursor_y + 16 * s@.len() <= i64::MAX,
        ensures
            (final(self).cursor_x as int, final(self).cursor_y as int) == cursor_after(
                old(self).cursor_x as int,
                old(self).cursor_y as int,
                s@,
            ),
            r@.len() == text_cells(old(self).cursor_x as int, old(self).cursor_y as int, s@).len(),
            forall|i: int|
                0 <= i < r@.len() ==> (r@[i].0 as int, r@[i].1 as int, r@[i].2) == text_cells(
                    old(self).cursor_x as int,
                    old(self).cursor_y as int,
                    s@,
                )[i],
    {
        let ghost (x0, y0) = (self.cursor_x as int, self.cursor_y as int);
        let n = s.unicode_len();
        let mut out: Vec<(i64, i64, char)> = Vec::new();
        let mut i: usize = 0;
        while i < n
            invariant
                n == s@.len(),
                i <= n,
                (if x0 > 0 { x0 } else { 0 }) + 8 * n <= i64::MAX,
                y0 + 16 * n <= i64::MAX,
                (self.cursor_x as int, self.cursor_y as int) == cursor_after(x0, y0, s@.take(i as int)),
                out@.len() == text_cells(x0, y0, s@.take(i as int)).len(),
                forall|j: int|
                    0 <= j < out@.len() ==> (out@[j].0 as int, out@[j].1 as int, out@[j].2) == text_cells(
                        x0,
                        y0,
                        s@.take(i as int),
                    )[j],
            decreases n - i,
        {
            let c = s.get_char(i);
            proof {
                assert(s@.take(i + 1).drop_last() =~= s@.take(i as int));
                assert(s@.take(i + 1).last() == c);
                lemma_cursor_bounds(x0, y0, s@.take(i as int));
            }
            if c == '\n' {
                self.cursor_y = self.cursor_y + 16;
                self.cursor_x = 0;
            } else {
                out.push((self.cursor_x, self.cursor_y, c));
                self.cursor_x = self.cursor_x + 8;
            }
            i = i + 1;
        }
        proof {
            assert(s@.take(n as int) =~= s@);
        }
        out
    }
}

} // verus!
