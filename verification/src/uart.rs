//! The 16550 UART driver's register traffic: where its registers sit and what
//! it writes to set the port up and to send a character.
use vstd::prelude::*;

verus! {

/// The base address of the UART on the QEMU `virt` machine.
pub const VIRT_UART0_ADDRESS: usize = 0x10000000;
/// The address of the QEMU test device, which powers the machine off.
pub const VIRT_TEST_ADDRESS: usize = 0x100000;
/// The test-device code for a failure exit.
pub const FAIL: u16 = 0x3333;
/// The test-device code for a successful exit.
pub const PASS: u16 = 0x5555;
/// The test-device code for a reset.
pub const RESET: u16 = 0x7777;
/// Line status: a received byte is waiting.
pub const INPUT_AVAILABLE: u8 = 1;
/// Line status: the transmitter holding register is empty.
pub const OUTPUT_EMPTY: u8 = 32;

/// The registers of a UART (with the divisor latch closed), by address.
pub struct SerialPort {
    pub rbr: usize,
    pub ier: usize,
    pub fcr: usize,
    pub lcr: usize,
    pub mcr: usize,
    pub lsr: usize,
    pub msr: usize,
    pub scr: usize,
}

impl SerialPort {
    /// The port whose registers start at `base`.
    pub fn new(base: usize) -> (p: SerialPort)
        requires
            base + 7 <= usize::MAX,
        ensures
            p.rbr == base,
            p.ier == base + 1,
            p.fcr == base + 2,
            p.lcr == base + 3,
            p.mcr == base + 4,
            p.lsr == base + 5,
            p.msr == base + 6,
            p.scr == base + 7,
    {
        SerialPort {
            rbr: base,
            ier: base + 1,
            fcr: base + 2,
            lcr: base + 3,
            mcr: base + 4,
            lsr: base + 5,
            msr: base + 6,
            scr: base + 7,
        }
    }

    /// The register writes that set the port up, in order: interrupts off,
    /// divisor latch open, 38.4k baud, latch closed with 8-bit words, FIFOs
    /// on and cleared, modem control, receive interrupts on.
    pub fn init(&self) -> (w: Vec<(usize, u8)>)
        ensures
            w@ == seq![
                (self.ier, 0x00u8),
                (self.lcr, 0x80u8),
                (self.rbr, 0x03u8),
                (self.ier, 0x00u8),
                (self.lcr, 0x03u8),
                (self.fcr, 0xc7u8),
                (self.mcr, 0x0bu8),
                (self.ier, 0x01u8),
            ],
    {
        let mut w: Vec<(usize, u8)> = Vec::new();
        w.push((self.ier, 0x00u8));
        w.push((self.lcr, 0x80u8));
        w.push((self.rbr, 0x03u8));
        w.push((self.ier, 0x00u8));
        w.push((self.lcr, 0x03u8));
        w.push((self.fcr, 0xc7u8));
        w.push((self.mcr, 0x0bu8));
        w.push((self.ier, 0x01u8));
        assert(w@ =~= seq![
            (self.ier, 0x00u8),
            (self.lcr, 0x80u8),
            (self.rbr, 0x03u8),
            (self.ier, 0x00u8),
            (self.lcr, 0x03u8),
            (self.fcr, 0xc7u8),
            (self.mcr, 0x0bu8),
            (self.ier, 0x01u8),
        ]);
        w
    }

    /// The bytes sent to the transmit register for `data`, each once the
    /// transmitter is empty: a backspace or delete erases the last character
    /// on the terminal (back, blank, back); any other byte goes as it is.
    pub fn putchar(&self, data: u8) -> (w: Vec<(usize, u8)>)
        ensures
            data == 0x08 || data == 0x7f ==> w@ == seq![
                (self.rbr, 0x08u8),
                (self.rbr, 0x20u8),
                (self.rbr, 0x08u8),
            ],
            !(data == 0x08 || data == 0x7f) ==> w@ == seq![(self.rbr, data)],
    {
        let mut w: Vec<(usize, u8)> = Vec::new();
        if data == 0x08 || data == 0x7f {
            w.push((self.rbr, 0x08u8));
            w.push((self.rbr, 0x20u8));
            w.push((self.rbr, 0x08u8));
            assert(w@ =~= seq![(self.rbr, 0x08u8), (self.rbr, 0x20u8), (self.rbr, 0x08u8)]);
        } else {
            w.push((self.rbr, data));
            assert(w@ =~= seq![(self.rbr, data)]);
        }
        w
    }
}

/// The line status says the transmitter is empty.
pub fn output_empty(status: u8) -> (b: bool)
    ensures
        b == (status & OUTPUT_EMPTY != 0),
{
    status & OUTPUT_EMPTY != 0
}

/// The line status says a received byte is waiting.
pub fn input_available(status: u8) -> (b: bool)
    ensures
        b == (status & INPUT_AVAILABLE != 0),
{
    status & INPUT_AVAILABLE != 0
}

/// The UART writes that put the byte `c` on the console.
pub fn console_putchar(port: &SerialPort, c: u8) -> (w: Vec<(usize, u8)>)
    ensures
        c == 0x08 || c == 0x7f ==> w@ == seq![
            (port.rbr, 0x08u8),
            (port.rbr, 0x20u8),
            (port.rbr, 0x08u8),
        ],
        !(c == 0x08 || c == 0x7f) ==> w@ == seq![(port.rbr, c)],
{
    port.putchar(c)
}

/// The word written to the test device to power off with `code`.
pub fn shutdown_word(code: u16) -> (w: u32)
    ensures
        w == code as u32,
{
    code as u32
}

} // verus!
