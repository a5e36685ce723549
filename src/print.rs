use vstd::prelude::*;

verus! {

/// Bytes shown on one line of a hex dump.
pub const DUMP_WIDTH: usize = 16;

/// The upper-case hexadecimal digit for `d` (`0 <= d < 16`), as ASCII.
pub open spec fn hex_char(d: int) -> u8 {
    if d < 10 {
        (48 + d) as u8
    } else {
        (55 + d) as u8
    }
}

/// `v` in upper-case hexadecimal, padded with zeros to at least `w` digits.
pub open spec fn hex_digits(v: nat, w: nat) -> Seq<u8>
    decreases v + w,
{
    if v == 0 && w == 0 {
        Seq::empty()
    } else {
        hex_digits(v / 16, if w > 0 { (w - 1) as nat } else { 0 }) + seq![hex_char(v as int % 16)]
    }
}

/// Each byte of `b` as two hexadecimal digits and a space.
pub open spec fn hex_bytes(b: Seq<u8>) -> Seq<u8>
    decreases b.len(),
{
    if b.len() == 0 {
        Seq::empty()
    } else {
        hex_bytes(b.drop_last()) + hex_digits(b.last() as nat, 2) + seq![32u8]
    }
}

/// How byte `c` shows in the text column: itself if printable, else a dot.
/// A full line shows space to `~`; the short last line lets DEL through too.
pub open spec fn shown(c: u8, full: bool) -> u8 {
    if 0x20 <= c && (c <= 0x7e || (!full && c <= 0x7f)) {
        c
    } else {
        46u8
    }
}

/// `n` blanks of three spaces each, where missing bytes would stand.
pub open spec fn blanks(n: nat) -> Seq<u8>
    decreases n,
{
    if n == 0 {
        Seq::empty()
    } else {
        blanks((n - 1) as nat) + seq![32u8, 32u8, 32u8]
    }
}

/// One line of the dump: the offset in eight or more digits, a colon, the
/// bytes in hexadecimal (blanks for missing ones on a short line), and the
/// bytes as text between bars.
pub open spec fn dump_line(b: Seq<u8>, offset: nat) -> Seq<u8> {
    let full = b.len() == DUMP_WIDTH;
    hex_digits(offset, 8) + seq![58u8, 32u8] + hex_bytes(b) + (if full {
        Seq::empty()
    } else {
        blanks((DUMP_WIDTH - b.len()) as nat)
    }) + seq![124u8] + b.map_values(|c: u8| shown(c, full)) + seq![124u8, 10u8]
}

/// The dump of `b`, whose first byte stands at `offset`: one line per 16
/// bytes, and a short line for what is left.
pub open spec fn hexdump_text(b: Seq<u8>, offset: nat) -> Seq<u8>
    decreases b.len(),
{
    if b.len() == 0 {
        Seq::empty()
    } else if b.len() <= DUMP_WIDTH {
        dump_line(b, offset)
    } else {
        dump_line(b.take(16), offset) + hexdump_text(b.skip(16), offset + 16)
    }
}

fn hex_char_exec(d: usize) -> (r: u8)
    requires
        d < 16,
    ensures
        r == hex_char(d as int),
{
    if d < 10 {
        48 + d as u8
    } else {
        55 + d as u8
    }
}

/// Appends `v` in hexadecimal, padded to at least `w` digits.
fn push_hex(out: &mut Vec<u8>, v: usize, w: usize)
    ensures
        final(out)@ == old(out)@ + hex_digits(v as nat, w as nat),
    decreases v + w,
{
    if v == 0 && w == 0 {
        assert(old(out)@ + hex_digits(0, 0) =~= old(out)@);
        return;
    }
    let ghost before = out@;
    push_hex(out, v / 16, if w > 0 { w - 1 } else { 0 });
    out.push(hex_char_exec(v % 16));
    proof {
        assert(out@ =~= before + hex_digits(v as nat, w as nat));
    }
}

/// Appends the dump line of `bytes[start..end]`.
fn push_line(out: &mut Vec<u8>, bytes: &[u8], start: usize, end: usize)
    requires
        start < end <= bytes@.len(),
        end - start <= DUMP_WIDTH,
    ensures
        final(out)@ == old(out)@ + dump_line(bytes@.subrange(start as int, end as int), start as nat),
{
    let n = bytes.len();
    let full = end - start == DUMP_WIDTH;
    let ghost line = bytes@.subrange(start as int, end as int);
    let ghost before = out@;
    push_hex(out, start, 8);
    out.push(58);
    out.push(32);
    let mut j = start;
    while j < end
        invariant
            start <= j <= end <= n,
            n == bytes@.len(),
            out@ == before + hex_digits(start as nat, 8) + seq![58u8, 32u8] + hex_bytes(bytes@.subrange(start as int, j as int)),
        decreases end - j,
    {
        push_hex(out, bytes[j] as usize, 2);
        out.push(32);
        proof {
            let s2 = bytes@.subrange(start as int, j + 1);
            assert(s2.drop_last() =~= bytes@.subrange(start as int, j as int));
            assert(out@ =~= before + hex_digits(start as nat, 8) + seq![58u8, 32u8] + hex_bytes(s2));
        }
        j = j + 1;
    }
    let ghost mid = out@;
    let mut pad = end - start;
    while pad < DUMP_WIDTH
        invariant
            end - start <= pad <= DUMP_WIDTH,
            out@ == mid + blanks((pad - (end - start)) as nat),
        decreases DUMP_WIDTH - pad,
    {
        out.push(32);
        out.push(32);
        out.push(32);
        proof {
            assert(out@ =~= mid + blanks((pad + 1 - (end - start)) as nat));
        }
        pad = pad + 1;
    }
    let ghost mid2 = out@;
    out.push(124);
    let mut k = start;
    while k < end
        invariant
            start <= k <= end <= n,
            n == bytes@.len(),
            full == (end - start == DUMP_WIDTH),
            out@ == mid2 + seq![124u8] + bytes@.subrange(start as int, k as int).map_values(|c: u8| shown(c, full)),
        decreases end - k,
    {
        let c = bytes[k];
        let v = if 0x20 <= c && (c <= 0x7e || (!full && c <= 0x7f)) {
            c
        } else {
            46
        };
        out.push(v);
        proof {
            assert(bytes@.subrange(start as int, k + 1).map_values(|c: u8| shown(c, full)) =~= bytes@.subrange(
                start as int,
                k as int,
            ).map_values(|c: u8| shown(c, full)).push(v));
        }
        k = k + 1;
    }
    out.push(124);
    out.push(10);
    proof {
        if full {
            assert(blanks(0) =~= Seq::<u8>::empty());
            assert(mid2 =~= mid);
        }
        assert(out@ =~= before + dump_line(line, start as nat));
    }
}

/// A hex dump of `bytes`, as ASCII text: per line of 16 bytes, the offset,
/// the bytes in hexadecimal, and the bytes as text.
pub fn hexdump_bytes(bytes: &[u8]) -> (r: Vec<u8>)
    ensures
        r@ == hexdump_text(bytes@, 0),
{
    let n = bytes.len();
    let mut out: Vec<u8> = Vec::new();
    let mut start: usize = 0;
    proof {
        assert(bytes@.skip(0) =~= bytes@);
        assert(out@ + hexdump_text(bytes@, 0) =~= hexdump_text(bytes@, 0));
    }
    while start < n
        invariant
            n == bytes@.len(),
            start <= n,
            out@ + hexdump_text(bytes@.skip(start as int), start as nat) == hexdump_text(bytes@, 0),
        decreases n - start,
    {
        let ghost rest = bytes@.skip(start as int);
        let ghost before = out@;
        let end = if n - start > DUMP_WIDTH {
            start + DUMP_WIDTH
        } else {
            n
        };
        push_line(&mut out, bytes, start, end);
        proof {
            let line = bytes@.subrange(start as int, end as int);
            if rest.len() <= 16 {
                assert(line =~= rest);
                assert(bytes@.skip(end as int) =~= Seq::<u8>::empty());
            } else {
                assert(line =~= rest.take(16));
                assert(rest.skip(16) =~= bytes@.skip(end as int));
            }
            assert(out@ + hexdump_text(bytes@.skip(end as int), end as nat) =~= before + hexdump_text(
                rest,
                start as nat,
            ));
        }
        start = end;
    }
    proof {
        assert(bytes@.skip(n as int) =~= Seq::<u8>::empty());
        assert(out@ + hexdump_text(bytes@.skip(n as int), n as nat) =~= out@);
    }
    out
}

} // verus!
