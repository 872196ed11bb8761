//! Names of processes, and rates as texts.

use crate::binary64::{double_quotient, quotient_units};
use crate::display::{one_decimal, push_one_decimal};
use crate::text::{
    append, chars_of, decimal, decimal_wide, digits_of, is_text, slice_of, string_of, trim,
    trim_of,
};
use vstd::prelude::*;

verus! {

/// Position behind the last `c` in `s`, or zero where it holds none.
pub open spec fn after_last_char(s: Seq<char>, c: char) -> int
    decreases s.len(),
{
    if s.len() == 0 {
        0
    } else if s.last() == c {
        s.len() as int
    } else {
        after_last_char(s.drop_last(), c)
    }
}

/// The last component of a path: what stands behind its last slash.
pub open spec fn base_name(path: Seq<char>) -> Seq<char> {
    path.skip(after_last_char(path, '/'))
}

/// Whether a process identifier names no process: it is empty or a dash.
pub open spec fn no_process(pid: Seq<char>) -> bool {
    pid.len() == 0 || pid == "-"@
}

/// The name of a process as the process list printed it: the last
/// component of the path, or `Unknown` where nothing was printed.
pub open spec fn process_name_of(listing: Seq<char>) -> Seq<char> {
    if trim_of(listing).len() == 0 {
        "Unknown"@
    } else {
        base_name(trim_of(listing))
    }
}

/// Whether a process identifier names no process, so that the process
/// list need not be asked.
pub fn is_no_process(pid: &str) -> (r: bool)
    ensures
        r == no_process(pid@),
{
    let p = chars_of(pid);
    p.len() == 0 || is_text(p.as_slice(), "-")
}

/// The name of a process. `listing` is what the process list printed for
/// it, or nothing where the list could not be asked; an identifier that
/// names no process, a list that could not be asked and an empty line all
/// give `Unknown`.
pub fn get_process_name(pid: &str, listing: Option<&str>) -> (r: String)
    ensures
        r@ == if no_process(pid@) {
            "Unknown"@
        } else {
            match listing {
                Some(text) => process_name_of(text@),
                None => "Unknown"@,
            }
        },
{
    if is_no_process(pid) {
        return "Unknown".to_owned();
    }
    match listing {
        None => "Unknown".to_owned(),
        Some(text) => {
            let name = trim(chars_of(text).as_slice());
            if name.len() == 0 {
                "Unknown".to_owned()
            } else {
                let mut k: usize = name.len();
                assert(name@.take(k as int) == name@);
                while k > 0 && name[k - 1] != '/'
                    invariant
                        k <= name.len(),
                        after_last_char(name@, '/') == after_last_char(name@.take(k as int), '/'),
                    decreases k,
                {
                    assert(name@.take(k as int).drop_last() == name@.take(k - 1));
                    k -= 1;
                }
                let base = slice_of(name.as_slice(), k, name.len());
                assert(name@.subrange(k as int, name@.len() as int) == name@.skip(k as int));
                string_of(base.as_slice())
            }
        },
    }
}

/// A rate in bytes per second, in the largest decimal unit that it
/// reaches: giga- and megabytes with one decimal, kilobytes in whole
/// numbers. The number shown is the double-precision quotient of the rate
/// by the unit, its decimals cut by rounding to the nearest, a tie going to
/// the even digit.
pub open spec fn rate_text(bytes_per_sec: nat) -> Seq<char> {
    if bytes_per_sec >= 1_000_000_000 {
        one_decimal(double_quotient(bytes_per_sec, 1_000_000_000, 10)) + " GB/s"@
    } else if bytes_per_sec >= 1_000_000 {
        one_decimal(double_quotient(bytes_per_sec, 1_000_000, 10)) + " MB/s"@
    } else if bytes_per_sec >= 1_000 {
        digits_of(double_quotient(bytes_per_sec, 1_000, 1)) + " KB/s"@
    } else {
        digits_of(bytes_per_sec) + " B/s"@
    }
}

/// Format bytes per second into a human-readable rate string.
pub fn format_rate(bytes_per_sec: u64) -> (r: String)
    ensures
        r@ == rate_text(bytes_per_sec as nat),
{
    let mut out: Vec<char> = Vec::new();
    if bytes_per_sec >= 1_000_000_000 {
        push_one_decimal(&mut out, quotient_units(bytes_per_sec, 1_000_000_000, 10));
        append(&mut out, chars_of(" GB/s").as_slice());
    } else if bytes_per_sec >= 1_000_000 {
        push_one_decimal(&mut out, quotient_units(bytes_per_sec, 1_000_000, 10));
        append(&mut out, chars_of(" MB/s").as_slice());
    } else if bytes_per_sec >= 1_000 {
        append(&mut out, decimal_wide(quotient_units(bytes_per_sec, 1_000, 1)).as_slice());
        append(&mut out, chars_of(" KB/s").as_slice());
    } else {
        append(&mut out, decimal(bytes_per_sec).as_slice());
        append(&mut out, chars_of(" B/s").as_slice());
    }
    string_of(out.as_slice())
}

} // verus!
