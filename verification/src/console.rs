//! Console output as bytes: what `print` and the colored log lines put on the
//! UART, and the decimal and hexadecimal renderings of numbers they use.
use vstd::prelude::*;

verus! {

/// The bytes the console sends for `s`: each character's low byte.
pub open spec fn char_bytes(s: Seq<char>) -> Seq<u8> {
    s.map_values(|c: char| c as u8)
}

/// Appends to `out` the bytes the console sends for `s`.
pub fn print(out: &mut Vec<u8>, s: &str)
    ensures
        final(out)@ == old(out)@ + char_bytes(s@),
{
    let n = s.unicode_len();
    let mut i: usize = 0;
    while i < n
        invariant
            n == s@.len(),
            i <= n,
            out@ == old(out)@ + char_bytes(s@.subrange(0, i as int)),
        decreases n - i,
    {
        let c = s.get_char(i);
        out.push(c as u8);
        proof {
            assert(char_bytes(s@.subrange(0, i + 1)) =~= char_bytes(s@.subrange(0, i as int)).push(
                c as u8,
            ));
        }
        i = i + 1;
    }
    proof {
        assert(s@.subrange(0, n as int) =~= s@);
    }
}

/// The decimal digits of `n`, most significant first.
pub open spec fn decimal(n: nat) -> Seq<u8>
    decreases n,
{
    if n < 10 {
        seq![(48 + n) as u8]
    } else {
        decimal(n / 10).push((48 + n % 10) as u8)
    }
}

/// The hexadecimal digits of `n`, most significant first, in lower case.
pub open spec fn hex_digits(n: nat) -> Seq<u8>
    decreases n,
{
    if n < 16 {
        seq![hex_digit(n)]
    } else {
        hex_digits(n / 16).push(hex_digit(n % 16))
    }
}

/// The lower-case hexadecimal digit for `d < 16`.
pub open spec fn hex_digit(d: nat) -> u8 {
    if d < 10 {
        (48 + d) as u8
    } else {
        (87 + d) as u8
    }
}

/// Appends the decimal rendering of `n` (`{}`).
pub fn print_decimal(out: &mut Vec<u8>, n: usize)
    ensures
        final(out)@ == old(out)@ + decimal(n as nat),
    decreases n,
{
    if n < 10 {
        out.push((48 + n) as u8);
        assert(old(out)@ + decimal(n as nat) =~= old(out)@.push((48 + n) as u8));
    } else {
        print_decimal(out, n / 10);
        out.push((48 + n % 10) as u8);
        assert(old(out)@ + decimal(n as nat) =~= (old(out)@ + decimal((n / 10) as nat)).push(
            (48 + n % 10) as u8,
        ));
    }
}

/// Appends the digits of `n` in hexadecimal.
fn print_hex_digits(out: &mut Vec<u8>, n: usize)
    ensures
        final(out)@ == old(out)@ + hex_digits(n as nat),
    decreases n,
{
    if n < 16 {
        out.push(if n < 10 {
            (48 + n) as u8
        } else {
            (87 + n) as u8
        });
        assert(old(out)@ + hex_digits(n as nat) =~= old(out)@.push(hex_digit(n as nat)));
    } else {
        print_hex_digits(out, n / 16);
        let d = n % 16;
        out.push(if d < 10 {
            (48 + d) as u8
        } else {
            (87 + d) as u8
        });
        assert(old(out)@ + hex_digits(n as nat) =~= (old(out)@ + hex_digits((n / 16) as nat)).push(
            hex_digit(d as nat),
        ));
    }
}

/// Appends the alternate hexadecimal rendering of `n` (`{:#x}`): `0x` and
/// the digits.
pub fn print_hex(out: &mut Vec<u8>, n: usize)
    ensures
        final(out)@ == old(out)@ + seq![48u8, 120u8] + hex_digits(n as nat),
{
    out.push(48u8);
    out.push(120u8);
    print_hex_digits(out, n);
    assert(old(out)@.push(48u8).push(120u8) =~= old(out)@ + seq![48u8, 120u8]);
}

/// The levels of the kernel log, each with its color.
#[derive(Clone, Copy, PartialEq, Eq, Structural, Debug)]
pub enum Log {
    Panic,
    Error,
    Warning,
    Info,
    Debug,
    Trace,
}

impl Log {
    /// The escape sequence that sets the level's color.
    pub open spec fn spec_color(&self) -> Seq<char> {
        match self {
            Log::Panic => "\x1b[95m"@,
            Log::Error => "\x1b[31m"@,
            Log::Warning => "\x1b[93m"@,
            Log::Info => "\x1b[96m"@,
            Log::Debug => "\x1b[32m"@,
            Log::Trace => "\x1b[90m"@,
        }
    }

    /// The color and the tag a log line of this level starts with.
    pub open spec fn spec_line_prefix(&self) -> Seq<char> {
        match self {
            Log::Panic => "\x1b[95m[Panic] "@,
            Log::Error => "\x1b[31m[Error] "@,
            Log::Warning => "\x1b[93m[Warning] "@,
            Log::Info => "\x1b[96m[Info] "@,
            Log::Debug => "\x1b[32m"@,
            Log::Trace => "\x1b[90m"@,
        }
    }

    /// The escape sequence that sets the level's color.
    pub fn color(&self) -> (s: &'static str)
        ensures
            s@ == self.spec_color(),
    {
        match self {
            Log::Panic => "\x1b[95m",
            Log::Error => "\x1b[31m",
            Log::Warning => "\x1b[93m",
            Log::Info => "\x1b[96m",
            Log::Debug => "\x1b[32m",
            Log::Trace => "\x1b[90m",
        }
    }

    /// The color and the tag a log line of this level starts with.
    pub fn line_prefix(&self) -> (s: &'static str)
        ensures
            s@ == self.spec_line_prefix(),
    {
        match self {
            Log::Panic => "\x1b[95m[Panic] ",
            Log::Error => "\x1b[31m[Error] ",
            Log::Warning => "\x1b[93m[Warning] ",
            Log::Info => "\x1b[96m[Info] ",
            Log::Debug => "\x1b[32m",
            Log::Trace => "\x1b[90m",
        }
    }
}

/// The escape sequence that restores the default color.
pub open spec fn spec_reset() -> Seq<char> {
    "\x1b[0m"@
}

/// The escape sequence that restores the default color.
pub fn reset() -> (s: &'static str)
    ensures
        s@ == spec_reset(),
{
    "\x1b[0m"
}

/// Appends `text` in the color of `level` (`print_info!`).
pub fn print_info(out: &mut Vec<u8>, level: Log, text: &str)
    ensures
        final(out)@ == old(out)@ + char_bytes(level.spec_color()) + char_bytes(text@)
            + char_bytes(spec_reset()),
{
    print(out, level.color());
    print(out, text);
    print(out, reset());
}

/// Starts a log line of `level`: its color and tag.
pub fn begin_line(out: &mut Vec<u8>, level: Log)
    ensures
        final(out)@ == old(out)@ + char_bytes(level.spec_line_prefix()),
{
    print(out, level.line_prefix())
}

/// Ends a log line: a newline and the default color.
pub fn end_line(out: &mut Vec<u8>)
    ensures
        final(out)@ == old(out)@ + seq![10u8] + char_bytes(spec_reset()),
{
    out.push(10u8);
    print(out, reset());
    assert(old(out)@.push(10u8) =~= old(out)@ + seq![10u8]);
}

/// Appends a whole log line of `level` saying `text` (`println_info!`).
pub fn println_info(out: &mut Vec<u8>, level: Log, text: &str)
    ensures
        final(out)@ == old(out)@ + char_bytes(level.spec_line_prefix()) + char_bytes(text@) + seq![
            10u8,
        ] + char_bytes(spec_reset()),
{
    begin_line(out, level);
    print(out, text);
    end_line(out);
}


/// The number an ASCII numeral in base `b` stands for (digits `0-9`, then
/// `a-z`).
pub open spec fn numeral_value(s: Seq<u8>, b: nat) -> int
    decreases s.len(),
{
    if s.len() == 0 {
        0
    } else {
        numeral_value(s.drop_last(), b) * b + digit_value(s.last())
    }
}

/// The value of one ASCII digit.
pub open spec fn digit_value(c: u8) -> int {
    if 48 <= c <= 57 {
        c - 48
    } else {
        c - 87
    }
}

/// `decimal(n)` is the decimal numeral of `n`: digits only, no leading zero,
/// worth `n`.
pub proof fn lemma_decimal_numeral(n: nat)
    ensures
        numeral_value(decimal(n), 10) == n,
        forall|i: int| 0 <= i < decimal(n).len() ==> 48 <= #[trigger] decimal(n)[i] <= 57,
        decimal(n).len() > 0,
        decimal(n)[0] == 48 ==> n == 0,
    decreases n,
{
    let d = decimal(n);
    if n >= 10 {
        lemma_decimal_numeral(n / 10);
        assert(d.drop_last() =~= decimal(n / 10));
        assert(forall|i: int| 0 <= i < d.len() - 1 ==> d[i] == decimal(n / 10)[i]);
        assert(digit_value(d.last()) == n % 10);
        vstd::arithmetic::div_mod::lemma_fundamental_div_mod(n as int, 10);
        assert(numeral_value(d, 10) == numeral_value(decimal(n / 10), 10) * 10 + n % 10);
    } else {
        assert(d.drop_last() =~= Seq::<u8>::empty());
        assert(numeral_value(Seq::<u8>::empty(), 10) == 0);
        assert(numeral_value(Seq::<u8>::empty(), 16) == 0);
        assert(digit_value(d.last()) == n);
    }
}

/// `hex_digits(n)` is the lower-case hexadecimal numeral of `n`: digits only,
/// no leading zero, worth `n`.
pub proof fn lemma_hex_numeral(n: nat)
    ensures
        numeral_value(hex_digits(n), 16) == n,
        forall|i: int|
            0 <= i < hex_digits(n).len() ==> (48 <= #[trigger] hex_digits(n)[i] <= 57 || 97
                <= hex_digits(n)[i] <= 102),
        hex_digits(n).len() > 0,
        hex_digits(n)[0] == 48 ==> n == 0,
    decreases n,
{
    let d = hex_digits(n);
    if n >= 16 {
        lemma_hex_numeral(n / 16);
        assert(d.drop_last() =~= hex_digits(n / 16));
        assert(forall|i: int| 0 <= i < d.len() - 1 ==> d[i] == hex_digits(n / 16)[i]);
        assert(digit_value(d.last()) == n % 16);
        vstd::arithmetic::div_mod::lemma_fundamental_div_mod(n as int, 16);
        assert(numeral_value(d, 16) == numeral_value(hex_digits(n / 16), 16) * 16 + n % 16);
    } else {
        assert(d.drop_last() =~= Seq::<u8>::empty());
        assert(numeral_value(Seq::<u8>::empty(), 10) == 0);
        assert(numeral_value(Seq::<u8>::empty(), 16) == 0);
        assert(digit_value(d.last()) == n);
    }
}

/// Each level's line starts with its own color and, for the levels that carry
/// one, its own tag: errors are tagged `[Error]` in red, warnings `[Warning]`
/// in yellow, information `[Info]` in cyan, panics `[Panic]` in magenta; debug
/// and trace lines carry their color only (green, grey).
pub proof fn lemma_line_prefixes()
    ensures
        Log::Panic.spec_color() == "\x1b[95m"@,
        Log::Error.spec_color() == "\x1b[31m"@,
        Log::Warning.spec_color() == "\x1b[93m"@,
        Log::Info.spec_color() == "\x1b[96m"@,
        Log::Debug.spec_color() == "\x1b[32m"@,
        Log::Trace.spec_color() == "\x1b[90m"@,
        Log::Panic.spec_line_prefix() == Log::Panic.spec_color() + "[Panic] "@,
        Log::Error.spec_line_prefix() == Log::Error.spec_color() + "[Error] "@,
        Log::Warning.spec_line_prefix() == Log::Warning.spec_color() + "[Warning] "@,
        Log::Info.spec_line_prefix() == Log::Info.spec_color() + "[Info] "@,
        Log::Debug.spec_line_prefix() == Log::Debug.spec_color(),
        Log::Trace.spec_line_prefix() == Log::Trace.spec_color(),
{
    reveal_strlit("\x1b[95m");
    reveal_strlit("\x1b[31m");
    reveal_strlit("\x1b[93m");
    reveal_strlit("\x1b[96m");
    reveal_strlit("\x1b[32m");
    reveal_strlit("\x1b[90m");
    reveal_strlit("\x1b[95m[Panic] ");
    reveal_strlit("\x1b[31m[Error] ");
    reveal_strlit("\x1b[93m[Warning] ");
    reveal_strlit("\x1b[96m[Info] ");
    reveal_strlit("[Panic] ");
    reveal_strlit("[Error] ");
    reveal_strlit("[Warning] ");
    reveal_strlit("[Info] ");
    assert(Log::Panic.spec_line_prefix() =~= Log::Panic.spec_color() + "[Panic] "@);
    assert(Log::Error.spec_line_prefix() =~= Log::Error.spec_color() + "[Error] "@);
    assert(Log::Warning.spec_line_prefix() =~= Log::Warning.spec_color() + "[Warning] "@);
    assert(Log::Info.spec_line_prefix() =~= Log::Info.spec_color() + "[Info] "@);
}

} // verus!
