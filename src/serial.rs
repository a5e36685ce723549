use vstd::prelude::*;
use vstd::string::*;

verus! {

/// The I/O port of the first serial port on a PC.
pub const COM1_BASE: u16 = 0x3f8;

/// The bit of the line status register that says the transmitter can take
/// another byte.
pub const TRANSMIT_READY: u8 = 0x20;

/// The register writes that set up a 16550-style UART at `base`, in order:
/// interrupts off; divisor latch on; divisor 1 (the fastest rate), low byte
/// then high byte; 8 data bits, no parity, one stop bit, latch off; FIFOs on
/// and cleared; data-terminal-ready, request-to-send and OUT2 on.
pub open spec fn init_writes(base: int) -> Seq<(u16, u8)> {
    seq![
        ((base + 1) as u16, 0x00u8),
        ((base + 3) as u16, 0x80u8),
        (base as u16, 0x01u8),
        ((base + 1) as u16, 0x00u8),
        ((base + 3) as u16, 0x03u8),
        ((base + 2) as u16, 0xC7u8),
        ((base + 4) as u16, 0x0Bu8),
    ]
}

/// The byte sent for `c`: the low eight bits of its code point.
pub open spec fn wire_byte(c: char) -> u8 {
    ((c as u32) % 256) as u8
}

/// A serial port at the I/O port `base`. The port's own registers are read
/// and written by the caller; this type says what to write and when.
pub struct SerialPort {
    base: u16,
}

impl View for SerialPort {
    type V = u16;

    /// The port's base I/O address.
    closed spec fn view(&self) -> u16 {
        self.base
    }
}

impl SerialPort {
    pub fn new(base: u16) -> (r: Self)
        ensures
            r@ == base,
    {
        SerialPort { base }
    }

    /// The first serial port of a PC.
    pub fn new_for_com1() -> (r: Self)
        ensures
            r@ == COM1_BASE,
    {
        Self::new(COM1_BASE)
    }

    pub fn base(&self) -> (r: u16)
        ensures
            r == self@,
    {
        self.base
    }

    /// The register writes that set the port up, as `(port, value)`, in the
    /// order they must be made.
    pub fn init(&self) -> (r: Vec<(u16, u8)>)
        requires
            self@ + 4 <= u16::MAX,
        ensures
            r@ == init_writes(self@ as int),
    {
        let b = self.base;
        let mut w: Vec<(u16, u8)> = Vec::new();
        w.push((b + 1, 0x00));
        w.push((b + 3, 0x80));
        w.push((b, 0x01));
        w.push((b + 1, 0x00));
        w.push((b + 3, 0x03));
        w.push((b + 2, 0xC7));
        w.push((b + 4, 0x0B));
        assert(w@ =~= init_writes(self@ as int));
        w
    }

    /// The port whose value tells whether the transmitter is ready.
    pub fn line_status_port(&self) -> (r: u16)
        requires
            self@ + 5 <= u16::MAX,
        ensures
            r == self@ + 5,
    {
        self.base + 5
    }

    /// What to do to send `c`, given the value just read from the line
    /// status port: `None` while the transmitter is busy (wait and read again),
    /// else the write to make, as `(port, byte)`.
    pub fn send_char(&self, c: char, line_status: u8) -> (r: Option<(u16, u8)>)
        ensures
            line_status & TRANSMIT_READY == 0 ==> r is None,
            line_status & TRANSMIT_READY != 0 ==> r == Some((self@, wire_byte(c))),
    {
        if line_status & TRANSMIT_READY == 0 {
            None
        } else {
            Some((self.base, ((c as u32) % 256) as u8))
        }
    }

    /// The bytes that send `s`, one per character, in order.
    pub fn send_str(&self, s: &str) -> (r: Vec<u8>)
        ensures
            r@ == s@.map_values(|c: char| wire_byte(c)),
    {
        let n = s.unicode_len();
        let mut out: Vec<u8> = Vec::new();
        let mut i: usize = 0;
        while i < n
            invariant
                n == s@.len(),
                i <= n,
                out@ == s@.take(i as int).map_values(|c: char| wire_byte(c)),
            decreases n - i,
        {
            let c = s.get_char(i);
            out.push(((c as u32) % 256) as u8);
            proof {
                assert(s@.take(i + 1) =~= s@.take(i as int).push(c));
                assert(out@ =~= s@.take(i + 1).map_values(|c: char| wire_byte(c)));
            }
            i = i + 1;
        }
        proof {
            assert(s@.take(n as int) =~= s@);
        }
        out
    }
}

impl Default for SerialPort {
    /// The first serial port of a PC.
    fn default() -> (r: Self)
        ensures
            r@ == COM1_BASE,
    {
        Self::new_for_com1()
    }
}

} // verus!
