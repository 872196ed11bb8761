//! Human-readable texts for sizes, rates and progress.

use crate::binary64::{double_quotient, quotient_units};
pub use crate::quality::quality_assessment;
use crate::text::{append, chars_of, decimal, decimal_wide, digits_of, string_of};
pub use crate::utils::format_rate;
use vstd::prelude::*;

verus! {

/// `num / den` rounded to the nearest whole number, a tie going to the
/// even one.
pub open spec fn round_half_even(num: nat, den: nat) -> nat {
    let q = num / den;
    let r = num % den;
    if 2 * r > den || (2 * r == den && q % 2 == 1) {
        q + 1
    } else {
        q
    }
}

/// A number of tenths written with one digit behind the decimal point.
pub open spec fn one_decimal(tenths: nat) -> Seq<char> {
    digits_of(tenths / 10) + seq!['.'] + digits_of(tenths % 10)
}

/// A size in bytes, in the largest decimal unit that it reaches: giga- and
/// megabytes with one decimal, kilobytes in whole numbers. The number shown
/// is the double-precision quotient of the size by the unit, its decimals
/// cut by rounding to the nearest, a tie going to the even digit.
pub open spec fn bytes_text(bytes: nat) -> Seq<char> {
    if bytes >= 1_000_000_000 {
        one_decimal(double_quotient(bytes, 1_000_000_000, 10)) + " GB"@
    } else if bytes >= 1_000_000 {
        one_decimal(double_quotient(bytes, 1_000_000, 10)) + " MB"@
    } else if bytes >= 1_000 {
        digits_of(double_quotient(bytes, 1_000, 1)) + " KB"@
    } else {
        digits_of(bytes) + " B"@
    }
}

/// A throughput given in kilobits per second, written in megabits per
/// second, or in gigabits from a thousand megabits on, with one decimal.
pub open spec fn mbps_text(kbps: nat) -> Seq<char> {
    if kbps >= 1_000_000 {
        one_decimal(round_half_even(kbps, 100_000)) + " Gbps"@
    } else {
        one_decimal(round_half_even(kbps, 100)) + " Mbps"@
    }
}

/// `num / den` rounded to the nearest whole number, a tie going to the
/// even one.
pub fn rounded_div(num: u64, den: u64) -> (r: u64)
    requires
        den > 0,
    ensures
        r == round_half_even(num as nat, den as nat),
{
    let q = num / den;
    let r = num % den;
    if r > den - r || (r == den - r && q % 2 == 1) {
        assert(q < u64::MAX) by (nonlinear_arith)
            requires
                q == num / den,
                den >= 2,
                num <= u64::MAX,
        ;
        q + 1
    } else {
        q
    }
}

/// Appends a number of tenths, written with one decimal, to `out`.
pub fn push_one_decimal(out: &mut Vec<char>, tenths: u128)
    ensures
        final(out)@ == old(out)@ + one_decimal(tenths as nat),
{
    let whole = decimal_wide(tenths / 10);
    let frac = decimal_wide(tenths % 10);
    append(out, whole.as_slice());
    out.push('.');
    append(out, frac.as_slice());
    assert(out@ == old(out)@ + one_decimal(tenths as nat));
}

/// Format bytes into a human-readable size string.
pub fn format_bytes(bytes: u64) -> (r: String)
    ensures
        r@ == bytes_text(bytes as nat),
{
    let mut out: Vec<char> = Vec::new();
    if bytes >= 1_000_000_000 {
        push_one_decimal(&mut out, quotient_units(bytes, 1_000_000_000, 10));
        append(&mut out, chars_of(" GB").as_slice());
    } else if bytes >= 1_000_000 {
        push_one_decimal(&mut out, quotient_units(bytes, 1_000_000, 10));
        append(&mut out, chars_of(" MB").as_slice());
    } else if bytes >= 1_000 {
        append(&mut out, decimal_wide(quotient_units(bytes, 1_000, 1)).as_slice());
        append(&mut out, chars_of(" KB").as_slice());
    } else {
        append(&mut out, decimal(bytes).as_slice());
        append(&mut out, chars_of(" B").as_slice());
    }
    string_of(out.as_slice())
}

/// Format a throughput, given in kilobits per second, in megabits or
/// gigabits per second.
pub fn format_mbps(kbps: u64) -> (r: String)
    ensures
        r@ == mbps_text(kbps as nat),
{
    let mut out: Vec<char> = Vec::new();
    if kbps >= 1_000_000 {
        push_one_decimal(&mut out, rounded_div(kbps, 100_000) as u128);
        append(&mut out, chars_of(" Gbps").as_slice());
    } else {
        push_one_decimal(&mut out, rounded_div(kbps, 100) as u128);
        append(&mut out, chars_of(" Mbps").as_slice());
    }
    string_of(out.as_slice())
}

/// `n` times the character `c`.
pub open spec fn repeated(c: char, n: nat) -> Seq<char> {
    Seq::new(n, |i: int| c)
}

/// `n` times the character `c`.
pub fn repeat(c: char, n: usize) -> (r: Vec<char>)
    ensures
        r@ == repeated(c, n as nat),
{
    let mut out: Vec<char> = Vec::new();
    let mut i: usize = 0;
    while i < n
        invariant
            i <= n,
            out@ == repeated(c, i as nat),
        decreases n - i,
    {
        out.push(c);
        assert(out@ == repeated(c, (i + 1) as nat));
        i += 1;
    }
    out
}

/// Number of characters between the two borders of a box.
pub const BOX_WIDTH: usize = 57;

/// Number of characters that the label of a row takes up at least.
pub const LABEL_WIDTH: usize = 17;

/// `a - b`, or zero where `b` is the larger.
pub open spec fn minus_or_zero(a: int, b: int) -> nat {
    if a >= b {
        (a - b) as nat
    } else {
        0
    }
}

/// A line of a box: a left border, a bar across the width, a right border.
pub open spec fn border_line(left: char, right: char) -> Seq<char> {
    seq![left] + repeated('\u{2500}', 57) + seq![right]
}

/// The title line of a box: the title between the side borders, with the
/// room that a title of 55 characters would leave shared out to its left
/// and right, the odd space going to the right.
pub open spec fn title_line(title: Seq<char>) -> Seq<char> {
    let room = minus_or_zero(55, title.len() as int);
    seq!['\u{2502}'] + repeated(' ', room / 2) + title + repeated(' ', (room - room / 2) as nat)
        + seq!['\u{2502}']
}

/// What stands between the borders of a row before it is filled up: a
/// space, the label filled up with spaces to its width, and the value.
pub open spec fn row_content(label: Seq<char>, value: Seq<char>) -> Seq<char> {
    seq![' '] + label + repeated(' ', minus_or_zero(17, label.len() as int)) + value
}

/// A row of a box: the content between the side borders, filled up with
/// spaces to the width of the box.
pub open spec fn row_line(label: Seq<char>, value: Seq<char>) -> Seq<char> {
    let content = row_content(label, value);
    seq!['\u{2502}'] + content + repeated(' ', minus_or_zero(57, content.len() as int)) + seq![
        '\u{2502}',
    ]
}

/// The three lines at the top of a box: the upper border, the title, and
/// the border below it.
pub fn header_lines(title: &str) -> (r: Vec<String>)
    ensures
        r@.len() == 3,
        r@[0]@ == border_line('\u{256d}', '\u{256e}'),
        r@[1]@ == title_line(title@),
        r@[2]@ == border_line('\u{251c}', '\u{2524}'),
{
    let t = chars_of(title);
    let room: usize = if t.len() <= BOX_WIDTH - 2 {
        BOX_WIDTH - 2 - t.len()
    } else {
        0
    };
    let left = room / 2;
    let right = room - left;
    let mut top: Vec<char> = Vec::new();
    top.push('\u{256d}');
    append(&mut top, repeat('\u{2500}', BOX_WIDTH).as_slice());
    top.push('\u{256e}');
    let mut middle: Vec<char> = Vec::new();
    middle.push('\u{2502}');
    append(&mut middle, repeat(' ', left).as_slice());
    append(&mut middle, t.as_slice());
    append(&mut middle, repeat(' ', right).as_slice());
    middle.push('\u{2502}');
    let mut below: Vec<char> = Vec::new();
    below.push('\u{251c}');
    append(&mut below, repeat('\u{2500}', BOX_WIDTH).as_slice());
    below.push('\u{2524}');
    assert(top@ == border_line('\u{256d}', '\u{256e}'));
    assert(middle@ == title_line(title@));
    assert(below@ == border_line('\u{251c}', '\u{2524}'));
    let mut out: Vec<String> = Vec::new();
    out.push(string_of(top.as_slice()));
    out.push(string_of(middle.as_slice()));
    out.push(string_of(below.as_slice()));
    out
}

/// A row of a box with a label and a value.
pub fn row(label: &str, value: &str) -> (r: String)
    ensures
        r@ == row_line(label@, value@),
{
    let l = chars_of(label);
    let fill: usize = if l.len() <= LABEL_WIDTH {
        LABEL_WIDTH - l.len()
    } else {
        0
    };
    let mut content: Vec<char> = Vec::new();
    content.push(' ');
    append(&mut content, l.as_slice());
    append(&mut content, repeat(' ', fill).as_slice());
    append(&mut content, chars_of(value).as_slice());
    assert(content@ == row_content(label@, value@));
    let pad: usize = if content.len() <= BOX_WIDTH {
        BOX_WIDTH - content.len()
    } else {
        0
    };
    let mut out: Vec<char> = Vec::new();
    out.push('\u{2502}');
    append(&mut out, content.as_slice());
    append(&mut out, repeat(' ', pad).as_slice());
    out.push('\u{2502}');
    assert(out@ == row_line(label@, value@));
    string_of(out.as_slice())
}

/// A row of a box with nothing in it.
pub fn empty_row() -> (r: String)
    ensures
        r@ == seq!['\u{2502}'] + repeated(' ', 57) + seq!['\u{2502}'],
{
    let mut out: Vec<char> = Vec::new();
    out.push('\u{2502}');
    append(&mut out, repeat(' ', BOX_WIDTH).as_slice());
    out.push('\u{2502}');
    string_of(out.as_slice())
}

/// The lower border of a box.
pub fn footer() -> (r: String)
    ensures
        r@ == border_line('\u{2570}', '\u{256f}'),
{
    let mut out: Vec<char> = Vec::new();
    out.push('\u{2570}');
    append(&mut out, repeat('\u{2500}', BOX_WIDTH).as_slice());
    out.push('\u{256f}');
    string_of(out.as_slice())
}

/// `num / den` rounded to the nearest whole number, a tie going away from
/// zero.
pub open spec fn round_half_up(num: nat, den: nat) -> nat {
    (2 * num + den) / (2 * den)
}

/// Number of filled cells of a progress bar of `width` cells at
/// `permille` thousandths: the nearest whole number of cells.
pub open spec fn filled_cells(permille: nat, width: nat) -> nat {
    round_half_up(permille * width, 1_000)
}

/// A progress bar: the filled cells, the cells that are left of the width,
/// and the share in whole percent.
pub open spec fn progress_text(permille: nat, width: nat) -> Seq<char> {
    let filled = filled_cells(permille, width);
    seq!['['] + repeated('\u{2588}', filled) + repeated(
        '\u{2591}',
        minus_or_zero(width as int, filled as int),
    ) + seq![']', ' '] + digits_of(round_half_even(permille, 10)) + seq!['%']
}

/// A simple progress bar of `width` cells for a share given in thousandths.
pub fn print_progress_bar(permille: u32, width: usize) -> (r: String)
    requires
        filled_cells(permille as nat, width as nat) <= usize::MAX,
    ensures
        r@ == progress_text(permille as nat, width as nat),
{
    assert(permille * width <= 0xffff_ffff * 0xffff_ffff_ffff_ffff) by (nonlinear_arith)
        requires
            permille <= 0xffff_ffff,
            width <= 0xffff_ffff_ffff_ffff,
    ;
    let product: u128 = (permille as u128) * (width as u128);
    let cells: u128 = (2 * product + 1_000) / 2_000;
    let filled = cells as usize;
    let empty: usize = if width >= filled {
        width - filled
    } else {
        0
    };
    let mut out: Vec<char> = Vec::new();
    out.push('[');
    append(&mut out, repeat('\u{2588}', filled).as_slice());
    append(&mut out, repeat('\u{2591}', empty).as_slice());
    out.push(']');
    out.push(' ');
    append(&mut out, decimal(rounded_div(permille as u64, 10)).as_slice());
    out.push('%');
    assert(out@ == progress_text(permille as nat, width as nat));
    string_of(out.as_slice())
}

/// A time given in microseconds, in whole milliseconds.
pub open spec fn millis_text(micros: nat) -> Seq<char> {
    digits_of(round_half_even(micros, 1_000)) + " ms"@
}

/// A share given in thousandths of a percent, in percent with one decimal.
pub open spec fn percent_one_decimal_text(millipct: nat) -> Seq<char> {
    one_decimal(round_half_even(millipct, 100)) + "%"@
}

/// A time, given in microseconds, in whole milliseconds.
pub fn format_millis(micros: u64) -> (r: String)
    ensures
        r@ == millis_text(micros as nat),
{
    let mut out = decimal(rounded_div(micros, 1_000));
    append(&mut out, chars_of(" ms").as_slice());
    string_of(out.as_slice())
}

/// A share, given in thousandths of a percent, in percent with one
/// decimal.
pub fn format_percent(millipct: u32) -> (r: String)
    ensures
        r@ == percent_one_decimal_text(millipct as nat),
{
    let mut out: Vec<char> = Vec::new();
    push_one_decimal(&mut out, rounded_div(millipct as u64, 100) as u128);
    append(&mut out, chars_of("%").as_slice());
    string_of(out.as_slice())
}

} // verus!
