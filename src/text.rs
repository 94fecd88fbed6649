//! Character-level helpers: turning strings into character vectors and back,
//! scanning runs of characters of one class, and reading numbers.
use vstd::prelude::*;
use vstd::std_specs::iter::IteratorSpec;

verus! {

/// The classes of characters that the report's grammar scans runs of.
pub enum CharClass {
    /// ASCII letters and digits (an address half).
    Alnum,
    /// Decimal digits.
    Digit,
    /// Blanks: spaces and tabs.
    Blank,
    /// Anything but a space or a line break (a header token).
    Token,
    /// Anything but a line break (the rest of a line).
    NotNewline,
    /// Anything but a colon or a line break (a counter label).
    Label,
    /// Whitespace, as `char::is_whitespace` has it.
    Space,
    /// Anything but whitespace.
    Word,
    /// Whitespace other than a line break.
    InlineSpace,
}

/// The characters of Unicode's White_Space property, which `char::is_whitespace` tests.
pub open spec fn is_space(c: char) -> bool {
    ('\t' <= c && c <= '\r') || c == ' ' || c == '\u{85}' || c == '\u{a0}' || c == '\u{1680}'
        || ('\u{2000}' <= c && c <= '\u{200a}') || c == '\u{2028}' || c == '\u{2029}' || c
        == '\u{202f}' || c == '\u{205f}' || c == '\u{3000}'
}

pub fn char_is_space(c: char) -> (r: bool)
    ensures
        r == is_space(c),
{
    ('\t' <= c && c <= '\r') || c == ' ' || c == '\u{85}' || c == '\u{a0}' || c == '\u{1680}'
        || ('\u{2000}' <= c && c <= '\u{200a}') || c == '\u{2028}' || c == '\u{2029}' || c
        == '\u{202f}' || c == '\u{205f}' || c == '\u{3000}'
}

pub open spec fn is_digit(c: char) -> bool {
    '0' <= c && c <= '9'
}

pub open spec fn is_hex_digit(c: char) -> bool {
    is_digit(c) || ('a' <= c && c <= 'f') || ('A' <= c && c <= 'F')
}

pub open spec fn in_class(c: char, class: CharClass) -> bool {
    match class {
        CharClass::Alnum => is_digit(c) || ('a' <= c && c <= 'z') || ('A' <= c && c <= 'Z'),
        CharClass::Digit => is_digit(c),
        CharClass::Blank => c == ' ' || c == '\t',
        CharClass::Token => c != ' ' && c != '\n',
        CharClass::NotNewline => c != '\n',
        CharClass::Label => c != ':' && c != '\n',
        CharClass::Space => is_space(c),
        CharClass::Word => !is_space(c),
        CharClass::InlineSpace => is_space(c) && c != '\n',
    }
}

/// The end of the longest run of `class` characters in `s` starting at `i`.
pub open spec fn run_end(s: Seq<char>, i: int, class: CharClass) -> int
    decreases s.len() - i,
{
    if 0 <= i < s.len() && in_class(s[i], class) {
        run_end(s, i + 1, class)
    } else {
        i
    }
}

/// Value of a hexadecimal digit.
pub open spec fn hex_digit_value(c: char) -> nat {
    if is_digit(c) {
        (c as u32 - '0' as u32) as nat
    } else if 'a' <= c && c <= 'f' {
        (c as u32 - 'a' as u32 + 10) as nat
    } else {
        (c as u32 - 'A' as u32 + 10) as nat
    }
}

/// Value of a run of digits in base `radix`, most significant first.
pub open spec fn digits_value(s: Seq<char>, radix: nat) -> nat
    decreases s.len(),
{
    if s.len() == 0 {
        0
    } else {
        digits_value(s.drop_last(), radix) * radix + hex_digit_value(s.last())
    }
}

/// What the text `s` reads as: a nonempty run of hexadecimal digits whose value fits a `usize`.
pub open spec fn hex_spec(s: Seq<char>) -> Option<usize> {
    if s.len() > 0 && (forall|k: int| 0 <= k < s.len() ==> is_hex_digit(#[trigger] s[k]))
        && digits_value(s, 16) <= usize::MAX {
        Some(digits_value(s, 16) as usize)
    } else {
        None
    }
}

/// What the text `s` reads as: a nonempty run of decimal digits whose value fits a `usize`.
pub open spec fn decimal_spec(s: Seq<char>) -> Option<usize> {
    if s.len() > 0 && (forall|k: int| 0 <= k < s.len() ==> is_digit(#[trigger] s[k]))
        && digits_value(s, 10) <= usize::MAX {
        Some(digits_value(s, 10) as usize)
    } else {
        None
    }
}

pub fn char_in_class(c: char, class: &CharClass) -> (r: bool)
    ensures
        r == in_class(c, *class),
{
    match class {
        CharClass::Alnum => ('0' <= c && c <= '9') || ('a' <= c && c <= 'z') || ('A' <= c && c
            <= 'Z'),
        CharClass::Digit => '0' <= c && c <= '9',
        CharClass::Blank => c == ' ' || c == '\t',
        CharClass::Token => c != ' ' && c != '\n',
        CharClass::NotNewline => c != '\n',
        CharClass::Label => c != ':' && c != '\n',
        CharClass::Space => char_is_space(c),
        CharClass::Word => !char_is_space(c),
        CharClass::InlineSpace => char_is_space(c) && c != '\n',
    }
}

/// Returns the end of the run of `class` characters that starts at `i`.
pub fn scan(s: &Vec<char>, i: usize, class: CharClass) -> (r: usize)
    requires
        i <= s@.len(),
    ensures
        r as int == run_end(s@, i as int, class),
        i <= r <= s@.len(),
{
    let mut k: usize = i;
    while k < s.len() && char_in_class(s[k], &class)
        invariant
            i <= k <= s@.len(),
            run_end(s@, k as int, class) == run_end(s@, i as int, class),
        decreases s@.len() - k,
    {
        k = k + 1;
    }
    k
}

/// The characters of `s`, in order.
pub fn chars_of(s: &str) -> (r: Vec<char>)
    ensures
        r@ == s@,
{
    let mut out: Vec<char> = Vec::new();
    let mut it = s.chars();
    proof {
        broadcast use vstd::string::group_string_axioms;
    }
    loop
        invariant
            it.obeys_prophetic_iter_laws(),
            out@ + it.remaining() == s@,
        ensures
            out@ == s@,
        decreases s@.len() - out@.len(),
    {
        let next = it.next();
        proof {
            broadcast use vstd::string::next_postcondition;
        }
        match next {
            Some(c) => {
                out.push(c);
            },
            None => {
                assert(out@ + it.remaining() =~= out@);
                break;
            },
        }
    }
    out
}


/// Relies on `String::push`, which appends one character to the string.
#[verifier::external_body]
pub(crate) fn push_char(s: &mut String, c: char)
    ensures
        final(s)@ == old(s)@.push(c),
{
    s.push(c);
}

/// Relies on `String::push_str`, which appends a string slice to the string.
#[verifier::external_body]
pub(crate) fn push_text(s: &mut String, t: &str)
    ensures
        final(s)@ == old(s)@ + t@,
{
    s.push_str(t);
}

/// `n` written in decimal, without leading zeros (`0` is `"0"`).
pub open spec fn dec_text(n: nat) -> Seq<char>
    decreases n,
{
    if n < 10 {
        seq![((48 + n) as u8) as char]
    } else {
        dec_text(n / 10).push(((48 + n % 10) as u8) as char)
    }
}

/// Appends `n` in decimal to `out`.
pub fn push_decimal(out: &mut String, n: usize)
    ensures
        final(out)@ == old(out)@ + dec_text(n as nat),
    decreases n,
{
    if n >= 10 {
        push_decimal(out, n / 10);
    }
    let c = (48 + (n % 10) as u8) as char;
    push_char(out, c);
    assert(final(out)@ =~= old(out)@ + dec_text(n as nat));
}

/// The string made of the characters `s[a..b]`.
pub fn string_of(s: &Vec<char>, a: usize, b: usize) -> (r: String)
    requires
        a <= b <= s@.len(),
    ensures
        r@ == s@.subrange(a as int, b as int),
{
    let mut out = String::new();
    let mut k: usize = a;
    while k < b
        invariant
            a <= k <= b <= s@.len(),
            out@ == s@.subrange(a as int, k as int),
        decreases b - k,
    {
        push_char(&mut out, s[k]);
        assert(s@.subrange(a as int, k + 1) =~= s@.subrange(a as int, k as int).push(s@[k as int]));
        k = k + 1;
    }
    out
}

proof fn lemma_digits_value_prefix(s: Seq<char>, radix: nat, k: int, n: int)
    requires
        0 <= k <= n <= s.len(),
        radix >= 1,
    ensures
        digits_value(s.subrange(0, k), radix) <= digits_value(s.subrange(0, n), radix),
    decreases n - k,
{
    if k < n {
        lemma_digits_value_prefix(s, radix, k, n - 1);
        assert(s.subrange(0, n).drop_last() =~= s.subrange(0, n - 1));
        let v = digits_value(s.subrange(0, n - 1), radix);
        assert(v * radix >= v) by (nonlinear_arith)
            requires
                radix >= 1,
        ;
    }
}

/// Value of the digits `s[a..b]` in base `radix`, or `None` where it does not fit a `usize`.
fn digits_in(s: &Vec<char>, a: usize, b: usize, radix: usize) -> (r: Option<usize>)
    requires
        a <= b <= s@.len(),
        radix == 10 || radix == 16,
        forall|k: int| a <= k < b ==> is_hex_digit(#[trigger] s@[k]),
    ensures
        r == (if digits_value(s@.subrange(a as int, b as int), radix as nat) <= usize::MAX {
            Some(digits_value(s@.subrange(a as int, b as int), radix as nat) as usize)
        } else {
            None::<usize>
        }),
{
    let ghost t = s@.subrange(a as int, b as int);
    let mut v: usize = 0;
    let mut k: usize = a;
    assert(t.subrange(0, 0) =~= Seq::<char>::empty());
    while k < b
        invariant
            a <= k <= b <= s@.len(),
            t == s@.subrange(a as int, b as int),
            radix == 10 || radix == 16,
            forall|i: int| a <= i < b ==> is_hex_digit(#[trigger] s@[i]),
            v as nat == digits_value(t.subrange(0, k - a), radix as nat),
        decreases b - k,
    {
        let c = s[k];
        let d: usize = if '0' <= c && c <= '9' {
            (c as u32 - '0' as u32) as usize
        } else if 'a' <= c && c <= 'f' {
            (c as u32 - 'a' as u32 + 10) as usize
        } else {
            (c as u32 - 'A' as u32 + 10) as usize
        };
        assert(t.subrange(0, k + 1 - a).drop_last() =~= t.subrange(0, k - a));
        assert(t.subrange(0, k + 1 - a).last() == c);
        match v.checked_mul(radix) {
            Some(m) => match m.checked_add(d) {
                Some(n) => {
                    v = n;
                },
                None => {
                    proof {
                        lemma_digits_value_prefix(t, radix as nat, k + 1 - a, t.len() as int);
                        assert(t.subrange(0, t.len() as int) =~= t);
                    }
                    return None;
                },
            },
            None => {
                proof {
                    assert(v * radix + d >= v * radix) by (nonlinear_arith);
                    lemma_digits_value_prefix(t, radix as nat, k + 1 - a, t.len() as int);
                    assert(t.subrange(0, t.len() as int) =~= t);
                }
                return None;
            },
        }
        k = k + 1;
    }
    assert(t.subrange(0, b - a) =~= t);
    Some(v)
}

/// Reads `s[a..b]` as a hexadecimal number.
pub fn hex_in(s: &Vec<char>, a: usize, b: usize) -> (r: Option<usize>)
    requires
        a <= b <= s@.len(),
    ensures
        r == hex_spec(s@.subrange(a as int, b as int)),
{
    if a == b {
        return None;
    }
    let mut k: usize = a;
    while k < b
        invariant
            a <= k <= b <= s@.len(),
            forall|i: int| a <= i < k ==> is_hex_digit(#[trigger] s@[i]),
        decreases b - k,
    {
        let c = s[k];
        if !(('0' <= c && c <= '9') || ('a' <= c && c <= 'f') || ('A' <= c && c <= 'F')) {
            assert(s@.subrange(a as int, b as int)[k - a] == c);
            return None;
        }
        k = k + 1;
    }
    let ghost t = s@.subrange(a as int, b as int);
    assert forall|i: int| 0 <= i < t.len() implies is_hex_digit(#[trigger] t[i]) by {
        assert(t[i] == s@[a + i]);
    }
    digits_in(s, a, b, 16)
}

/// Reads `s[a..b]` as a decimal number.
pub fn decimal_in(s: &Vec<char>, a: usize, b: usize) -> (r: Option<usize>)
    requires
        a <= b <= s@.len(),
    ensures
        r == decimal_spec(s@.subrange(a as int, b as int)),
{
    if a == b {
        return None;
    }
    let mut k: usize = a;
    while k < b
        invariant
            a <= k <= b <= s@.len(),
            forall|i: int| a <= i < k ==> is_digit(#[trigger] s@[i]),
        decreases b - k,
    {
        let c = s[k];
        if !('0' <= c && c <= '9') {
            assert(s@.subrange(a as int, b as int)[k - a] == c);
            return None;
        }
        k = k + 1;
    }
    let ghost t = s@.subrange(a as int, b as int);
    assert forall|i: int| 0 <= i < t.len() implies is_digit(#[trigger] t[i]) by {
        assert(t[i] == s@[a + i]);
    }
    digits_in(s, a, b, 10)
}

} // verus!
