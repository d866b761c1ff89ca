//! Decimal rendering of citation numbers.

use vstd::prelude::*;
use vstd::string::StringExecFns;

verus! {

/// The character for a single decimal digit.
pub open spec fn digit_char(d: int) -> char {
    if d == 0 {
        '0'
    } else if d == 1 {
        '1'
    } else if d == 2 {
        '2'
    } else if d == 3 {
        '3'
    } else if d == 4 {
        '4'
    } else if d == 5 {
        '5'
    } else if d == 6 {
        '6'
    } else if d == 7 {
        '7'
    } else if d == 8 {
        '8'
    } else {
        '9'
    }
}

/// The usual decimal notation of `n`, most significant digit first,
/// without leading zeros (except for `n == 0` itself).
pub open spec fn decimal_digits(n: int) -> Seq<char>
    decreases n,
{
    if n < 10 {
        seq![digit_char(n)]
    } else {
        decimal_digits(n / 10).push(digit_char(n % 10))
    }
}

fn digit_to_char(d: usize) -> (c: char)
    requires
        d < 10,
    ensures
        c == digit_char(d as int),
{
    if d == 0 {
        '0'
    } else if d == 1 {
        '1'
    } else if d == 2 {
        '2'
    } else if d == 3 {
        '3'
    } else if d == 4 {
        '4'
    } else if d == 5 {
        '5'
    } else if d == 6 {
        '6'
    } else if d == 7 {
        '7'
    } else if d == 8 {
        '8'
    } else {
        '9'
    }
}

/// Renders `n` in decimal notation.
pub fn usize_to_string(n: usize) -> (s: String)
    ensures
        s@ == decimal_digits(n as int),
    decreases n,
{
    if n < 10 {
        let mut s = String::new();
        crate::strutil::push_char(&mut s, digit_to_char(n));
        assert(s@ =~= decimal_digits(n as int));
        s
    } else {
        assert(n / 10 < n && n / 10 >= 1) by (nonlinear_arith)
            requires
                n >= 10,
        ;
        let mut s = usize_to_string(n / 10);
        crate::strutil::push_char(&mut s, digit_to_char(n % 10));
        assert(s@ =~= decimal_digits(n as int));
        s
    }
}

/// The text that [`format_range`] produces: the one-number form uses
/// `prefix_s`, the two-number form uses `prefix_m` with an en dash between
/// the bounds; a space follows the prefix only when `prefix_s` is
/// non-empty.
pub open spec fn range_text(
    prefix_s: Seq<char>,
    prefix_m: Seq<char>,
    start: usize,
    end: usize,
) -> Seq<char> {
    let space: Seq<char> = if prefix_s.len() == 0 {
        Seq::empty()
    } else {
        " "@
    };
    if start == end {
        prefix_s + space + decimal_digits(start as int)
    } else {
        prefix_m + space + decimal_digits(start as int) + "\u{2013}"@ + decimal_digits(end as int)
    }
}

/// Formats the inclusive numeric range `start..=end` with a prefix for the
/// singular case and one for the plural case.
pub fn format_range(prefix_s: &str, prefix_m: &str, start: usize, end: usize) -> (r: String)
    ensures
        r@ == range_text(prefix_s@, prefix_m@, start, end),
{
    let mut r = String::new();
    if start == end {
        r.append(prefix_s);
        if !prefix_s.is_empty() {
            r.append(" ");
        }
        let s = usize_to_string(start);
        r.append(s.as_str());
        assert(r@ =~= range_text(prefix_s@, prefix_m@, start, end));
    } else {
        r.append(prefix_m);
        if !prefix_s.is_empty() {
            r.append(" ");
        }
        let s = usize_to_string(start);
        r.append(s.as_str());
        r.append("\u{2013}");
        let e = usize_to_string(end);
        r.append(e.as_str());
        assert(r@ =~= range_text(prefix_s@, prefix_m@, start, end));
    }
    r
}

} // verus!
