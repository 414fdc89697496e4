//! ANSI escape sequences for the terminal renderer, built as plain strings.
//!
//! Writing the sequences to the terminal is the caller's business; this
//! module only constructs them, character by character, with the decimal
//! arguments formatted by a verified formatter.

use vstd::prelude::*;

verus! {

/// A foreground or background colour selectable through an ANSI escape
/// sequence.
#[derive(Clone, Copy)]
pub enum ANSIColor {
    Black,
    Red,
    Green,
    Yellow,
    Blue,
    Magenta,
    Cyan,
    White,
    Default,
}

/// The escape prefix (ESC `[`) followed by the given body.
pub open spec fn esc_of(body: Seq<char>) -> Seq<char> {
    seq!['\u{1b}', '['] + body
}

/// The character for one decimal digit.
pub open spec fn digit_char(d: int) -> char {
    if d == 0 {
        '0'
    } else if d == 1 {
        '1'
    } else if d == 2 {
        '2'
    } else if d == 3 {
        '3'
    } else if d == 4 {
        '4'
    } else if d == 5 {
        '5'
    } else if d == 6 {
        '6'
    } else if d == 7 {
        '7'
    } else if d == 8 {
        '8'
    } else {
        '9'
    }
}

/// The usual decimal rendering of a non-negative number, most significant
/// digit first, without leading zeros (a lone zero for zero).
pub open spec fn dec_rep(n: int) -> Seq<char>
    decreases n,
{
    if n < 10 {
        seq![digit_char(n)]
    } else {
        dec_rep(n / 10).push(digit_char(n % 10))
    }
}

/// One decimal digit as a string slice.
fn digit_str(d: u16) -> (r: &'static str)
    requires
        d < 10,
    ensures
        r@ == seq![digit_char(d as int)],
{
    proof {
        reveal_strlit("0");
        reveal_strlit("1");
        reveal_strlit("2");
        reveal_strlit("3");
        reveal_strlit("4");
        reveal_strlit("5");
        reveal_strlit("6");
        reveal_strlit("7");
        reveal_strlit("8");
        reveal_strlit("9");
    }
    let r = if d == 0 {
        "0"
    } else if d == 1 {
        "1"
    } else if d == 2 {
        "2"
    } else if d == 3 {
        "3"
    } else if d == 4 {
        "4"
    } else if d == 5 {
        "5"
    } else if d == 6 {
        "6"
    } else if d == 7 {
        "7"
    } else if d == 8 {
        "8"
    } else {
        "9"
    };
    proof {
        assert(r@ =~= seq![digit_char(d as int)]);
    }
    r
}

/// Formats a number in decimal.
fn u16_decimal(n: u16) -> (r: String)
    ensures
        r@ == dec_rep(n as int),
    decreases n,
{
    if n < 10 {
        digit_str(n).to_owned()
    } else {
        proof {
            assert(n / 10 < n) by (nonlinear_arith)
                requires
                    n >= 10,
            ;
        }
        let mut s = u16_decimal(n / 10);
        s.append(digit_str(n % 10));
        proof {
            assert(s@ =~= dec_rep((n / 10) as int).push(digit_char((n % 10) as int)));
        }
        s
    }
}

/// Prefixes the sequence with ESC `[`.
fn escape(sequence: &str) -> (r: String)
    ensures
        r@ == esc_of(sequence@),
{
    proof {
        reveal_strlit("\u{1b}[");
    }
    let mut s = String::from_str("\u{1b}[");
    proof {
        assert(s@ =~= seq!['\u{1b}', '[']);
    }
    s.append(sequence);
    s
}

fn clear() -> (r: String)
    ensures
        r@ == esc_of(seq!['2', '3']),
{
    proof {
        reveal_strlit("23");
        assert("23"@ =~= seq!['2', '3']);
    }
    escape("23")
}

fn hide_cursor() -> (r: String)
    ensures
        r@ == esc_of(seq!['?', '2', '5', 'l']),
{
    proof {
        reveal_strlit("?25l");
        assert("?25l"@ =~= seq!['?', '2', '5', 'l']);
    }
    escape("?25l")
}

fn show_cursor() -> (r: String)
    ensures
        r@ == esc_of(seq!['?', '2', '5', 'h']),
{
    proof {
        reveal_strlit("?25h");
        assert("?25h"@ =~= seq!['?', '2', '5', 'h']);
    }
    escape("?25h")
}

/// The cursor-positioning sequence for the given zero-based line and
/// column: both are sent one-based.
fn setpos(line: u16, column: u16) -> (r: String)
    requires
        line < u16::MAX,
        column < u16::MAX,
    ensures
        r@ == esc_of(
            dec_rep(line as int + 1) + seq![';'] + dec_rep(column as int + 1) + seq!['H'],
        ),
{
    proof {
        reveal_strlit(";");
        assert(";"@ =~= seq![';']);
        reveal_strlit("H");
        assert("H"@ =~= seq!['H']);
    }
    let mut body = u16_decimal(line + 1);
    body.append(";");
    let column_digits = u16_decimal(column + 1);
    body.append(column_digits.as_str());
    body.append("H");
    escape(body.as_str())
}

/// The numeric code selecting the colour as a foreground.
pub open spec fn fg_code(c: ANSIColor) -> int {
    match c {
        ANSIColor::Black => 30,
        ANSIColor::Red => 31,
        ANSIColor::Green => 32,
        ANSIColor::Yellow => 33,
        ANSIColor::Blue => 34,
        ANSIColor::Magenta => 35,
        ANSIColor::Cyan => 36,
        ANSIColor::White => 37,
        ANSIColor::Default => 39,
    }
}

/// The numeric code selecting the colour as a background. Yellow shares
/// blue's code in this table.
pub open spec fn bg_code(c: ANSIColor) -> int {
    match c {
        ANSIColor::Black => 40,
        ANSIColor::Red => 41,
        ANSIColor::Green => 42,
        ANSIColor::Yellow => 44,
        ANSIColor::Blue => 44,
        ANSIColor::Magenta => 45,
        ANSIColor::Cyan => 46,
        ANSIColor::White => 47,
        ANSIColor::Default => 49,
    }
}

/// The colour-selection sequence for the given foreground and background.
fn color(fg: ANSIColor, bg: ANSIColor) -> (r: String)
    ensures
        r@ == esc_of(dec_rep(fg_code(fg)) + seq![';'] + dec_rep(bg_code(bg)) + seq!['m']),
{
    proof {
        reveal_strlit(";");
        assert(";"@ =~= seq![';']);
        reveal_strlit("m");
        assert("m"@ =~= seq!['m']);
    }
    let fg_num: u16 = match fg {
        ANSIColor::Black => 30,
        ANSIColor::Red => 31,
        ANSIColor::Green => 32,
        ANSIColor::Yellow => 33,
        ANSIColor::Blue => 34,
        ANSIColor::Magenta => 35,
        ANSIColor::Cyan => 36,
        ANSIColor::White => 37,
        ANSIColor::Default => 39,
    };
    let bg_num: u16 = match bg {
        ANSIColor::Black => 40,
        ANSIColor::Red => 41,
        ANSIColor::Green => 42,
        ANSIColor::Yellow => 44,
        ANSIColor::Blue => 44,
        ANSIColor::Magenta => 45,
        ANSIColor::Cyan => 46,
        ANSIColor::White => 47,
        ANSIColor::Default => 49,
    };
    let mut body = u16_decimal(fg_num);
    body.append(";");
    let bg_digits = u16_decimal(bg_num);
    body.append(bg_digits.as_str());
    body.append("m");
    escape(body.as_str())
}

fn inverse() -> (r: String)
    ensures
        r@ == esc_of(seq!['7', 'm']),
{
    proof {
        reveal_strlit("7m");
        assert("7m"@ =~= seq!['7', 'm']);
    }
    escape("7m")
}

fn reset() -> (r: String)
    ensures
        r@ == esc_of(seq!['0', 'm']),
{
    proof {
        reveal_strlit("0m");
        assert("0m"@ =~= seq!['0', 'm']);
    }
    escape("0m")
}

/// A source of ANSI escape sequences for one terminal screen. Each method
/// returns the sequence to send; the caller owns the output channel and
/// does the sending.
pub struct ANSI {}

impl ANSI {
    pub fn new() -> ANSI {
        ANSI {}
    }

    pub fn clear(&self) -> (r: String)
        ensures
            r@ == esc_of(seq!['2', '3']),
    {
        clear()
    }

    pub fn hide_cursor(&self) -> (r: String)
        ensures
            r@ == esc_of(seq!['?', '2', '5', 'l']),
    {
        hide_cursor()
    }

    pub fn show_cursor(&self) -> (r: String)
        ensures
            r@ == esc_of(seq!['?', '2', '5', 'h']),
    {
        show_cursor()
    }

    pub fn setpos(&self, line: u16, column: u16) -> (r: String)
        requires
            line < u16::MAX,
            column < u16::MAX,
        ensures
            r@ == esc_of(
                dec_rep(line as int + 1) + seq![';'] + dec_rep(column as int + 1) + seq!['H'],
            ),
    {
        setpos(line, column)
    }

    pub fn color(&self, fg: ANSIColor, bg: ANSIColor) -> (r: String)
        ensures
            r@ == esc_of(dec_rep(fg_code(fg)) + seq![';'] + dec_rep(bg_code(bg)) + seq!['m']),
    {
        color(fg, bg)
    }

    pub fn inverse(&self) -> (r: String)
        ensures
            r@ == esc_of(seq!['7', 'm']),
    {
        inverse()
    }

    pub fn reset(&self) -> (r: String)
        ensures
            r@ == esc_of(seq!['0', 'm']),
    {
        reset()
    }
}

} // verus!
