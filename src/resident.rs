//! The resident memory total of a process, from its one-line memory status report
//! (`size resident shared text lib data dt`, counted in pages). Fields are separated by
//! whitespace as `char::is_whitespace` has it.
use vstd::prelude::*;
use crate::text::{chars_of, decimal_in, decimal_spec, run_end, scan, CharClass};

verus! {

/// Where the second whitespace-separated field of `s` lies, if there is one.
pub open spec fn second_field(s: Seq<char>) -> Option<(int, int)> {
    let p0 = run_end(s, 0, CharClass::Space);
    let e0 = run_end(s, p0, CharClass::Word);
    let p1 = run_end(s, e0, CharClass::Space);
    let e1 = run_end(s, p1, CharClass::Word);
    if e0 == p0 || e1 == p1 {
        None
    } else {
        Some((p1, e1))
    }
}

/// Where the digits of the field `s[a..b]` start: after one optional `+`.
pub open spec fn digits_start(s: Seq<char>, a: int) -> int {
    if s[a] == '+' {
        a + 1
    } else {
        a
    }
}

/// The resident page count (the second field) times the page size, where the field is a
/// decimal number, optionally signed `+`, and the product fits a `usize`.
pub open spec fn resident_spec(s: Seq<char>, page_size: usize) -> Option<usize> {
    match second_field(s) {
        None => None,
        Some((a, b)) => match decimal_spec(s.subrange(digits_start(s, a), b)) {
            None => None,
            Some(n) => if n * page_size <= usize::MAX {
                Some((n * page_size) as usize)
            } else {
                None
            },
        },
    }
}

/// The resident memory in bytes that the status text `statm` reports, given the page size.
pub fn resident_bytes(statm: &str, page_size: usize) -> (r: Option<usize>)
    ensures
        r == resident_spec(statm@, page_size),
{
    let s = chars_of(statm);
    let p0 = scan(&s, 0, CharClass::Space);
    let e0 = scan(&s, p0, CharClass::Word);
    let p1 = scan(&s, e0, CharClass::Space);
    let e1 = scan(&s, p1, CharClass::Word);
    if e0 == p0 || e1 == p1 {
        return None;
    }
    let d = if s[p1] == '+' { p1 + 1 } else { p1 };
    match decimal_in(&s, d, e1) {
        None => None,
        Some(n) => n.checked_mul(page_size),
    }
}

} // verus!
