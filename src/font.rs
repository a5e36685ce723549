use vstd::prelude::*;
use crate::graphics::INK;

verus! {

/// The byte that ends a line of the font text.
pub const NEWLINE: u8 = 10;

/// Where the line that starts at `i` ends: at the next newline, or at the
/// end of the text.
pub open spec fn line_end(b: Seq<u8>, i: int) -> int
    decreases b.len() - i,
{
    if i >= b.len() {
        b.len() as int
    } else if b[i] == NEWLINE {
        i
    } else {
        line_end(b, i + 1)
    }
}

/// The value of a hexadecimal digit, either case.
pub open spec fn hex_digit(c: u8) -> Option<int> {
    if 48 <= c <= 57 {
        Some(c - 48)
    } else if 97 <= c <= 102 {
        Some(c - 87)
    } else if 65 <= c <= 70 {
        Some(c - 55)
    } else {
        None
    }
}

/// The number that the hexadecimal digits `b[s..e]` spell; `None` if one of
/// them is not a digit.
pub open spec fn hex_value(b: Seq<u8>, s: int, e: int) -> Option<int>
    decreases e - s,
{
    if e <= s {
        Some(0)
    } else {
        match (hex_value(b, s, e - 1), hex_digit(b[e - 1])) {
            (Some(v), Some(d)) => Some(16 * v + d),
            _ => None,
        }
    }
}

/// The character code that the line `b[s..e]` introduces, if it is a glyph
/// header: `0x`, an optional `+`, then at least one hexadecimal digit, for a
/// value of at most 255.
pub open spec fn header_code(b: Seq<u8>, s: int, e: int) -> Option<int> {
    if e - s >= 2 && b[s] == 48 && b[s + 1] == 120 {
        let d = if e - s >= 3 && b[s + 2] == 43 { s + 3 } else { s + 2 };
        if d < e && hex_value(b, d, e) is Some && hex_value(b, d, e).unwrap() <= 255 {
            hex_value(b, d, e)
        } else {
            None
        }
    } else {
        None
    }
}

/// Where the rows of the glyph for `c` start: just past the first header
/// line for `c` at or after the line that starts at `i`.
pub open spec fn glyph_start(b: Seq<u8>, i: int, c: int) -> Option<int>
    decreases b.len() + 1 - i,
{
    if i < 0 || i > b.len() {
        None
    } else {
        let e = line_end(b, i);
        if header_code(b, i, e) == Some(c) {
            Some(e + 1)
        } else if i <= e < b.len() {
            glyph_start(b, e + 1, c)
        } else {
            None
        }
    }
}

/// Where line `y` counted from the line that starts at `p` starts, if the
/// text has that many lines.
pub open spec fn row_start(b: Seq<u8>, p: int, y: nat) -> Option<int>
    decreases y,
{
    if p < 0 || p > b.len() {
        None
    } else if y == 0 {
        Some(p)
    } else {
        let e = line_end(b, p);
        if e < b.len() {
            row_start(b, e + 1, (y - 1) as nat)
        } else {
            None
        }
    }
}

/// Cell `k` of a glyph whose rows start at `p`: the byte at column `k % 8`
/// of row `k / 8`, or a lit cell where the text has no such byte.
pub open spec fn glyph_cell(b: Seq<u8>, p: int, k: int) -> u8 {
    match row_start(b, p, (k / 8) as nat) {
        Some(s) => if s + k % 8 < line_end(b, s) {
            b[s + k % 8]
        } else {
            INK
        },
        None => INK,
    }
}

/// The glyph of the character with code `c` in the font text `b`: 16 rows
/// of 8 cells, row after row, read from the lines after its header line.
pub open spec fn font_glyph(b: Seq<u8>, c: int) -> Option<Seq<u8>> {
    if c > 255 {
        None
    } else {
        match glyph_start(b, 0, c) {
            Some(p) => Some(Seq::new(128, |k: int| glyph_cell(b, p, k))),
            None => None,
        }
    }
}

proof fn lemma_line_end_bounds(b: Seq<u8>, i: int)
    requires
        0 <= i <= b.len(),
    ensures
        i <= line_end(b, i) <= b.len(),
    decreases b.len() - i,
{
    if i < b.len() && b[i] != NEWLINE {
        lemma_line_end_bounds(b, i + 1);
    }
}

/// A prefix of well-formed digits is well-formed and spells no more.
proof fn lemma_hex_prefix(b: Seq<u8>, s: int, m: int, e: int)
    requires
        s <= m <= e,
        hex_value(b, s, e) is Some,
    ensures
        hex_value(b, s, m) is Some,
        0 <= hex_value(b, s, m).unwrap() <= hex_value(b, s, e).unwrap(),
    decreases e - m,
{
    if m < e {
        lemma_hex_prefix(b, s, m, e - 1);
    } else {
        lemma_hex_nonneg(b, s, e);
    }
}

proof fn lemma_hex_nonneg(b: Seq<u8>, s: int, e: int)
    requires
        hex_value(b, s, e) is Some,
    ensures
        hex_value(b, s, e).unwrap() >= 0,
    decreases e - s,
{
    if e > s {
        lemma_hex_nonneg(b, s, e - 1);
    }
}

/// One step further from `p`, the next line starts after line `y`.
proof fn lemma_row_start_next(b: Seq<u8>, p: int, y: nat)
    ensures
        row_start(b, p, y + 1) == match row_start(b, p, y) {
            Some(s) => if line_end(b, s) < b.len() {
                Some(line_end(b, s) + 1)
            } else {
                None::<int>
            },
            None => None::<int>,
        },
    decreases y,
{
    if 0 <= p <= b.len() {
        lemma_line_end_bounds(b, p);
        let e = line_end(b, p);
        if y > 0 && e < b.len() {
            lemma_row_start_next(b, e + 1, (y - 1) as nat);
        }
    }
}

fn line_end_exec(b: &[u8], i: usize) -> (r: usize)
    requires
        i <= b@.len(),
    ensures
        r == line_end(b@, i as int),
{
    let len = b.len();
    let mut j = i;
    while j < len && b[j] != NEWLINE
        invariant
            len == b@.len(),
            i <= j <= len,
            line_end(b@, i as int) == line_end(b@, j as int),
        decreases len - j,
    {
        j = j + 1;
    }
    j
}

fn hex_digit_exec(c: u8) -> (r: Option<u8>)
    ensures
        r matches Some(d) ==> hex_digit(c) == Some(d as int),
        r is None <==> hex_digit(c) is None,
{
    if 48 <= c && c <= 57 {
        Some(c - 48)
    } else if 97 <= c && c <= 102 {
        Some(c - 87)
    } else if 65 <= c && c <= 70 {
        Some(c - 55)
    } else {
        None
    }
}

/// The character code that the line `b[s..e]` introduces, if it is a
/// glyph header.
fn parse_header(b: &[u8], s: usize, e: usize) -> (r: Option<u8>)
    requires
        s <= e <= b@.len(),
    ensures
        r matches Some(v) ==> header_code(b@, s as int, e as int) == Some(v as int),
        r is None <==> header_code(b@, s as int, e as int) is None,
{
    if e - s < 2 || b[s] != 48 || b[s + 1] != 120 {
        return None;
    }
    let d = if e - s >= 3 && b[s + 2] == 43 {
        s + 3
    } else {
        s + 2
    };
    if d >= e {
        return None;
    }
    let mut acc: u32 = 0;
    let mut j = d;
    while j < e
        invariant
            s + 2 <= d <= j <= e <= b@.len(),
            d < e,
            d == if e - s >= 3 && b@[s + 2] == 43 { s + 3 } else { s + 2 },
            hex_value(b@, d as int, j as int) == Some(acc as int),
            acc <= 255,
        decreases e - j,
    {
        match hex_digit_exec(b[j]) {
            None => {
                proof {
                    if hex_value(b@, d as int, e as int) is Some {
                        lemma_hex_prefix(b@, d as int, j + 1, e as int);
                    }
                }
                return None;
            },
            Some(dg) => {
                let next = acc * 16 + dg as u32;
                if next > 255 {
                    proof {
                        if hex_value(b@, d as int, e as int) is Some {
                            lemma_hex_prefix(b@, d as int, j + 1, e as int);
                        }
                    }
                    return None;
                }
                acc = next;
            },
        }
        j = j + 1;
    }
    Some(acc as u8)
}

/// The 128 cells of the glyph whose rows start at `p` (`None`: the header
/// was the last line, so every cell is lit).
fn read_glyph(b: &[u8], p: Option<usize>, ghost_p: Ghost<int>) -> (r: Vec<u8>)
    requires
        p matches Some(q) ==> q == ghost_p@ && q <= b@.len(),
        p is None ==> ghost_p@ > b@.len(),
    ensures
        r@ == Seq::new(128, |k: int| glyph_cell(b@, ghost_p@, k)),
{
    let len = b.len();
    let mut out: Vec<u8> = Vec::new();
    let mut row = p;
    let mut y: usize = 0;
    while y < 16
        invariant
            len == b@.len(),
            y <= 16,
            row == (match row_start(b@, ghost_p@, y as nat) {
                Some(s) => Some(s as usize),
                None => None::<usize>,
            }),
            row matches Some(s) ==> s <= len && row_start(b@, ghost_p@, y as nat) == Some(s as int),
            out@ =~= Seq::new((8 * y) as nat, |k: int| glyph_cell(b@, ghost_p@, k)),
        decreases 16 - y,
    {
        proof {
            lemma_row_start_next(b@, ghost_p@, y as nat);
        }
        match row {
            Some(s) => {
                let e = line_end_exec(b, s);
                proof {
                    lemma_line_end_bounds(b@, s as int);
                }
                let mut x: usize = 0;
                while x < 8
                    invariant
                        len == b@.len(),
                        y < 16,
                        x <= 8,
                        s <= e <= len,
                        e == line_end(b@, s as int),
                        row_start(b@, ghost_p@, y as nat) == Some(s as int),
                        out@ =~= Seq::new((8 * y + x) as nat, |k: int| glyph_cell(b@, ghost_p@, k)),
                    decreases 8 - x,
                {
                    let cell = if x < e - s {
                        b[s + x]
                    } else {
                        INK
                    };
                    proof {
                        let k = 8 * y + x;
                        assert(k / 8 == y && k % 8 == x);
                    }
                    out.push(cell);
                    x = x + 1;
                }
                row = if e < len {
                    Some(e + 1)
                } else {
                    None
                };
            },
            None => {
                let mut x: usize = 0;
                while x < 8
                    invariant
                        y < 16,
                        x <= 8,
                        row_start(b@, ghost_p@, y as nat) is None,
                        out@ =~= Seq::new((8 * y + x) as nat, |k: int| glyph_cell(b@, ghost_p@, k)),
                    decreases 8 - x,
                {
                    proof {
                        let k = 8 * y + x;
                        assert(k / 8 == y);
                    }
                    out.push(INK);
                    x = x + 1;
                }
            },
        }
        y = y + 1;
    }
    out
}

/// The glyph of `c` in the font text `font`: 16 rows of 8 cells, row after
/// row. The text is a sequence of lines; a line `0x` followed by the
/// character code in hexadecimal introduces a glyph, whose rows are the 16
/// lines after it. A cell with no byte in the text (a short row, or rows
/// missing at the end) is lit. `None` when `c` is no byte or has no glyph.
pub fn lookup_font(font: &[u8], c: char) -> (r: Option<Vec<u8>>)
    ensures
        r is None <==> font_glyph(font@, c as int) is None,
        r matches Some(g) ==> font_glyph(font@, c as int) == Some(g@),
{
    let code = c as u32;
    if code > 255 {
        return None;
    }
    let len = font.len();
    let mut i: usize = 0;
    while i <= len
        invariant
            len == font@.len(),
            code == c as u32,
            code <= 255,
            i <= len,
            glyph_start(font@, i as int, code as int) == glyph_start(font@, 0, code as int),
        decreases len - i,
    {
        let e = line_end_exec(font, i);
        proof {
            lemma_line_end_bounds(font@, i as int);
        }
        let matched = match parse_header(font, i, e) {
            Some(v) => v as u32 == code,
            None => false,
        };
        if matched {
            let p = if e < len {
                Some(e + 1)
            } else {
                None
            };
            return Some(read_glyph(font, p, Ghost(e + 1)));
        }
        if e >= len {
            return None;
        }
        i = e + 1;
    }
    None
}

} // verus!
