//! The parser for the per-mapping memory report.
//!
//! Each record is a header line
//! `<hex>-<hex> <perms> <offset> <device> <inode> [<path>]`, one or more counter
//! lines `<label>:<blanks><digits>[ kB]`, and a line `VmFlags:<blanks><flags>`,
//! optionally followed by a blank line. The grammar is stated by the spec functions
//! below over the report's characters; each parsing function is proved to compute it.
use vstd::prelude::*;
use crate::memory_map::{lemma_range_text_round_trip, range_spec, put, Counters, CounterSeq, MappingView, MemoryMap, Numeric, Range};
use crate::text::{
    char_is_space, chars_of, decimal_in, is_space, decimal_spec, hex_in, hex_spec, run_end, scan,
    string_of, CharClass,
};

verus! {

/// The header fields, for error reports.
#[derive(PartialEq, Eq, Structural, Debug, Clone, Copy)]
pub enum HeaderField {
    Address,
    Permissions,
    Offset,
    Device,
    Inode,
}

#[derive(PartialEq, Eq, Structural, Debug, Clone, Copy)]
pub enum ParseErrorKind {
    /// A header field is missing or does not parse.
    MalformedHeader(HeaderField),
    /// A counter line's label or value does not parse.
    MalformedCounter,
    /// The input ends inside a record, or a record has no counter line.
    Truncated,
}

/// Why and where (a character index into the input) parsing stopped.
#[derive(PartialEq, Eq, Structural, Debug, Clone, Copy)]
pub struct ParseError {
    pub kind: ParseErrorKind,
    pub position: usize,
}

pub open spec fn err<T>(kind: ParseErrorKind, position: int) -> Result<T, ParseError> {
    Err(ParseError { kind, position: position as usize })
}

/// The bounds `[start, end)` of a header token.
#[derive(PartialEq, Eq, Structural, Debug, Clone, Copy)]
pub struct Span {
    pub start: usize,
    pub end: usize,
}

/// Where the parts of a header line lie.
#[derive(PartialEq, Eq, Structural, Debug, Clone, Copy)]
pub struct Header {
    pub range: Range,
    pub permissions: Span,
    pub offset: Span,
    pub device: Span,
    pub inode: Span,
    pub path: Span,
    /// Just past the line break.
    pub end: usize,
}

/// One counter line: where its label lies, its value, and where the next line starts.
#[derive(PartialEq, Eq, Structural, Debug, Clone, Copy)]
pub struct CounterLine {
    pub label: Span,
    pub value: Numeric,
    pub end: usize,
}

/// A token after one or more blanks, starting at `p`.
pub open spec fn field_spec(s: Seq<char>, p: int, field: HeaderField) -> Result<Span, ParseError> {
    let q = run_end(s, p, CharClass::Blank);
    let e = run_end(s, q, CharClass::Token);
    if q == p {
        err(ParseErrorKind::MalformedHeader(field), p)
    } else if e == q {
        err(ParseErrorKind::MalformedHeader(field), q)
    } else {
        Ok(Span { start: q as usize, end: e as usize })
    }
}

/// The end of `s[q..t]` without its trailing whitespace.
pub open spec fn trim_end(s: Seq<char>, q: int, t: int) -> int
    decreases t - q,
{
    if q < t && is_space(s[t - 1]) {
        trim_end(s, q, t - 1)
    } else {
        t
    }
}

/// The header line starting at `p`. The path is the rest of the line after the inode,
/// without the whitespace at either end; an empty one means no backing file.
pub open spec fn header_spec(s: Seq<char>, p: int) -> Result<Header, ParseError> {
    let d = run_end(s, p, CharClass::Alnum);
    let e2 = run_end(s, d + 1, CharClass::Alnum);
    if !(d < s.len() && s[d] == '-') || hex_spec(s.subrange(p, d)) is None || hex_spec(
        s.subrange(d + 1, e2),
    ) is None {
        err(ParseErrorKind::MalformedHeader(HeaderField::Address), p)
    } else {
        let range = Range {
            from: hex_spec(s.subrange(p, d))->0,
            to: hex_spec(s.subrange(d + 1, e2))->0,
        };
        match field_spec(s, e2, HeaderField::Permissions) {
            Err(x) => Err(x),
            Ok(perm) => match field_spec(s, perm.end as int, HeaderField::Offset) {
                Err(x) => Err(x),
                Ok(off) => match field_spec(s, off.end as int, HeaderField::Device) {
                    Err(x) => Err(x),
                    Ok(dev) => match field_spec(s, dev.end as int, HeaderField::Inode) {
                        Err(x) => Err(x),
                        Ok(ino) => {
                            let q = run_end(s, ino.end as int, CharClass::InlineSpace);
                            let le = run_end(s, q, CharClass::NotNewline);
                            if le >= s.len() {
                                err(ParseErrorKind::Truncated, le)
                            } else {
                                Ok(
                                    Header {
                                        range,
                                        permissions: perm,
                                        offset: off,
                                        device: dev,
                                        inode: ino,
                                        path: Span { start: q as usize, end: trim_end(s, q, le) as usize },
                                        end: (le + 1) as usize,
                                    },
                                )
                            }
                        },
                    },
                },
            },
        }
    }
}

/// The range of a header that parses holds the values of its two hexadecimal halves, and
/// prints as `<hex>-<hex>` text that reads back as that same range.
pub proof fn lemma_header_range_round_trip(s: Seq<char>, p: int)
    requires
        header_spec(s, p) is Ok,
    ensures
        ({
            let h = header_spec(s, p)->Ok_0;
            let d = run_end(s, p, CharClass::Alnum);
            &&& hex_spec(s.subrange(p, d)) == Some(h.range.from)
            &&& hex_spec(s.subrange(d + 1, run_end(s, d + 1, CharClass::Alnum))) == Some(h.range.to)
            &&& range_spec(h.range.text()) == Some(h.range)
        }),
{
    lemma_range_text_round_trip(header_spec(s, p)->Ok_0.range);
}

pub open spec fn kb_suffix_at(s: Seq<char>, e: int) -> bool {
    e + 3 <= s.len() && s[e] == ' ' && s[e + 1] == 'k' && s[e + 2] == 'B'
}

/// The counter line starting at `p`.
pub open spec fn counter_spec(s: Seq<char>, p: int) -> Result<CounterLine, ParseError> {
    let l = run_end(s, p, CharClass::Label);
    let q = run_end(s, l + 1, CharClass::Blank);
    let e = run_end(s, q, CharClass::Digit);
    if !(l < s.len() && s[l] == ':') || q == l + 1 || decimal_spec(s.subrange(q, e)) is None {
        err(ParseErrorKind::MalformedCounter, p)
    } else {
        let n = decimal_spec(s.subrange(q, e))->0;
        let kb = kb_suffix_at(s, e);
        let v = if kb { Numeric::Kb(n) } else { Numeric::Number(n) };
        let e2 = if kb { e + 3 } else { e };
        if e2 >= s.len() {
            err(ParseErrorKind::Truncated, e2)
        } else if s[e2] != '\n' {
            err(ParseErrorKind::MalformedCounter, p)
        } else {
            Ok(CounterLine { label: Span { start: p as usize, end: l as usize }, value: v, end: (e2 + 1) as usize })
        }
    }
}

/// An accepted counter line's value has as magnitude the number that its digits spell, and
/// is in kilobytes exactly where the digits are followed by ` kB`.
pub proof fn lemma_counter_faithful(s: Seq<char>, p: int)
    requires
        counter_spec(s, p) is Ok,
    ensures
        ({
            let l = run_end(s, p, CharClass::Label);
            let q = run_end(s, l + 1, CharClass::Blank);
            let e = run_end(s, q, CharClass::Digit);
            let v = counter_spec(s, p)->Ok_0.value;
            &&& decimal_spec(s.subrange(q, e)) == Some(v.magnitude())
            &&& (v is Kb <==> kb_suffix_at(s, e))
        }),
{
}

pub open spec fn flags_prefix() -> Seq<char> {
    seq!['V', 'm', 'F', 'l', 'a', 'g', 's', ':']
}

/// Whether a `VmFlags:` line starts at `p`.
pub open spec fn flags_line_at(s: Seq<char>, p: int) -> bool {
    p + 8 <= s.len() && s.subrange(p, p + 8) == flags_prefix()
}

/// The counters from `p` up to the flags line, set in turn on `acc`; `n` lines were read
/// before `p`. Gives the counters and where the flags line starts.
pub open spec fn counters_spec(s: Seq<char>, p: int, acc: CounterSeq, n: nat) -> Result<
    (CounterSeq, int),
    ParseError,
>
    decreases s.len() - p,
{
    if p < 0 || p >= s.len() {
        err(ParseErrorKind::Truncated, p)
    } else if flags_line_at(s, p) {
        if n == 0 {
            err(ParseErrorKind::Truncated, p)
        } else {
            Ok((acc, p))
        }
    } else {
        match counter_spec(s, p) {
            Err(x) => Err(x),
            Ok(c) => if c.end <= p || c.end > s.len() {
                err(ParseErrorKind::MalformedCounter, p)
            } else {
                counters_spec(
                    s,
                    c.end as int,
                    put(acc, s.subrange(c.label.start as int, c.label.end as int), c.value),
                    n + 1,
                )
            },
        }
    }
}

/// The flags line at `p` (which starts with `VmFlags:`): where the flags lie and where the
/// next record starts, past the line break and one blank line.
pub open spec fn flags_spec(s: Seq<char>, p: int) -> (Span, int) {
    let q = run_end(s, p + 8, CharClass::Blank);
    let le = run_end(s, q, CharClass::NotNewline);
    let end = if le < s.len() { le + 1 } else { le };
    let next = if end < s.len() && s[end] == '\n' { end + 1 } else { end };
    (Span { start: q as usize, end: le as usize }, next)
}

pub open spec fn text_of(s: Seq<char>, sp: Span) -> Seq<char> {
    s.subrange(sp.start as int, sp.end as int)
}

/// The record starting at `p`, and where the next one starts.
pub open spec fn record_spec(s: Seq<char>, p: int) -> Result<(MappingView, int), ParseError> {
    match header_spec(s, p) {
        Err(x) => Err(x),
        Ok(h) => match counters_spec(s, h.end as int, Seq::empty(), 0) {
            Err(x) => Err(x),
            Ok((sizes, fp)) => {
                let (fl, next) = flags_spec(s, fp);
                Ok(
                    (
                        MappingView {
                            range: h.range,
                            permissions: text_of(s, h.permissions),
                            offset: text_of(s, h.offset),
                            device: text_of(s, h.device),
                            inode: text_of(s, h.inode),
                            path: if h.path.start == h.path.end {
                                None
                            } else {
                                Some(text_of(s, h.path))
                            },
                            sizes,
                            vm_flags: text_of(s, fl),
                        },
                        next,
                    ),
                )
            },
        },
    }
}

/// All records from `p` to the end of the input.
pub open spec fn records_spec(s: Seq<char>, p: int) -> Result<Seq<MappingView>, ParseError>
    decreases s.len() - p,
{
    if p < 0 || p >= s.len() {
        Ok(Seq::empty())
    } else {
        match record_spec(s, p) {
            Err(x) => Err(x),
            Ok((m, next)) => if next <= p || next > s.len() {
                err(ParseErrorKind::Truncated, p)
            } else {
                match records_spec(s, next) {
                    Err(x) => Err(x),
                    Ok(rest) => Ok(seq![m] + rest),
                }
            },
        }
    }
}

fn read_field(s: &Vec<char>, p: usize, field: HeaderField) -> (r: Result<Span, ParseError>)
    requires
        p <= s@.len(),
    ensures
        r == field_spec(s@, p as int, field),
        r matches Ok(sp) ==> p < sp.start < sp.end <= s@.len(),
{
    let q = scan(s, p, CharClass::Blank);
    let e = scan(s, q, CharClass::Token);
    if q == p {
        Err(ParseError { kind: ParseErrorKind::MalformedHeader(field), position: p })
    } else if e == q {
        Err(ParseError { kind: ParseErrorKind::MalformedHeader(field), position: q })
    } else {
        Ok(Span { start: q, end: e })
    }
}

fn trim_blanks_end(s: &Vec<char>, q: usize, le: usize) -> (r: usize)
    requires
        q <= le <= s@.len(),
    ensures
        r as int == trim_end(s@, q as int, le as int),
        q <= r <= le,
{
    let mut t: usize = le;
    while q < t && char_is_space(s[t - 1])
        invariant
            q <= t <= le <= s@.len(),
            trim_end(s@, q as int, t as int) == trim_end(s@, q as int, le as int),
        decreases t,
    {
        t = t - 1;
    }
    t
}

fn read_header(s: &Vec<char>, p: usize) -> (r: Result<Header, ParseError>)
    requires
        p <= s@.len(),
    ensures
        r == header_spec(s@, p as int),
        r matches Ok(h) ==> p < h.end <= s@.len() && h.permissions.start <= h.permissions.end
            <= s@.len() && h.offset.start <= h.offset.end <= s@.len() && h.device.start
            <= h.device.end <= s@.len() && h.inode.start <= h.inode.end <= s@.len()
            && h.path.start <= h.path.end <= s@.len(),
{
    let d = scan(s, p, CharClass::Alnum);
    let bad = Err(ParseError { kind: ParseErrorKind::MalformedHeader(HeaderField::Address), position: p });
    if !(d < s.len() && s[d] == '-') {
        return bad;
    }
    let e2 = scan(s, d + 1, CharClass::Alnum);
    let from = match hex_in(s, p, d) {
        Some(v) => v,
        None => {
            return bad;
        },
    };
    let to = match hex_in(s, d + 1, e2) {
        Some(v) => v,
        None => {
            return bad;
        },
    };
    let perm = match read_field(s, e2, HeaderField::Permissions) {
        Ok(x) => x,
        Err(x) => {
            return Err(x);
        },
    };
    let off = match read_field(s, perm.end, HeaderField::Offset) {
        Ok(x) => x,
        Err(x) => {
            return Err(x);
        },
    };
    let dev = match read_field(s, off.end, HeaderField::Device) {
        Ok(x) => x,
        Err(x) => {
            return Err(x);
        },
    };
    let ino = match read_field(s, dev.end, HeaderField::Inode) {
        Ok(x) => x,
        Err(x) => {
            return Err(x);
        },
    };
    let q = scan(s, ino.end, CharClass::InlineSpace);
    let le = scan(s, q, CharClass::NotNewline);
    if le >= s.len() {
        return Err(ParseError { kind: ParseErrorKind::Truncated, position: le });
    }
    let pe = trim_blanks_end(s, q, le);
    Ok(
        Header {
            range: Range { from, to },
            permissions: perm,
            offset: off,
            device: dev,
            inode: ino,
            path: Span { start: q, end: pe },
            end: le + 1,
        },
    )
}

fn read_counter(s: &Vec<char>, p: usize) -> (r: Result<CounterLine, ParseError>)
    requires
        p <= s@.len(),
    ensures
        r == counter_spec(s@, p as int),
        r matches Ok(c) ==> p <= c.label.start <= c.label.end < c.end <= s@.len(),
{
    let l = scan(s, p, CharClass::Label);
    let bad = Err(ParseError { kind: ParseErrorKind::MalformedCounter, position: p });
    if !(l < s.len() && s[l] == ':') {
        return bad;
    }
    let q = scan(s, l + 1, CharClass::Blank);
    if q == l + 1 {
        return bad;
    }
    let e = scan(s, q, CharClass::Digit);
    let n = match decimal_in(s, q, e) {
        Some(n) => n,
        None => {
            return bad;
        },
    };
    let kb = e < s.len() && s.len() - e >= 3 && s[e] == ' ' && s[e + 1] == 'k' && s[e + 2] == 'B';
    let v = if kb { Numeric::Kb(n) } else { Numeric::Number(n) };
    let e2 = if kb { e + 3 } else { e };
    if e2 >= s.len() {
        Err(ParseError { kind: ParseErrorKind::Truncated, position: e2 })
    } else if s[e2] != '\n' {
        bad
    } else {
        Ok(CounterLine { label: Span { start: p, end: l }, value: v, end: e2 + 1 })
    }
}

fn flags_line_here(s: &Vec<char>, p: usize) -> (r: bool)
    requires
        p <= s@.len(),
    ensures
        r == flags_line_at(s@, p as int),
{
    if s.len() - p < 8 {
        return false;
    }
    let r = s[p] == 'V' && s[p + 1] == 'm' && s[p + 2] == 'F' && s[p + 3] == 'l' && s[p + 4]
        == 'a' && s[p + 5] == 'g' && s[p + 6] == 's' && s[p + 7] == ':';
    if r {
        assert(s@.subrange(p as int, p + 8) =~= flags_prefix());
    } else {
        proof {
            let t = s@.subrange(p as int, p + 8);
            if t == flags_prefix() {
                assert(t[0] == 'V' && t[1] == 'm' && t[2] == 'F' && t[3] == 'l');
                assert(t[4] == 'a' && t[5] == 'g' && t[6] == 's' && t[7] == ':');
            }
        }
    }
    r
}

fn read_counters(s: &Vec<char>, p: usize) -> (r: Result<(Counters, usize), ParseError>)
    requires
        p <= s@.len(),
    ensures
        match r {
            Ok((c, fp)) => counters_spec(s@, p as int, Seq::empty(), 0) == Ok::<(CounterSeq, int), ParseError>((c@, fp as int))
                && c.wf() && fp + 8 <= s@.len(),
            Err(x) => counters_spec(s@, p as int, Seq::empty(), 0) == Err::<(CounterSeq, int), ParseError>(x),
        },
{
    let mut acc = Counters::new();
    let mut n: usize = 0;
    let mut pos: usize = p;
    loop
        invariant
            pos <= s@.len(),
            acc.wf(),
            counters_spec(s@, pos as int, acc@, n as nat) == counters_spec(s@, p as int, Seq::empty(), 0),
            n <= pos,
        decreases s@.len() - pos,
    {
        if pos >= s.len() {
            return Err(ParseError { kind: ParseErrorKind::Truncated, position: pos });
        }
        if flags_line_here(s, pos) {
            if n == 0 {
                return Err(ParseError { kind: ParseErrorKind::Truncated, position: pos });
            }
            return Ok((acc, pos));
        }
        match read_counter(s, pos) {
            Err(x) => {
                return Err(x);
            },
            Ok(c) => {
                let label = string_of(s, c.label.start, c.label.end);
                acc.insert(label, c.value);
                pos = c.end;
                n = n + 1;
            },
        }
    }
}

fn read_flags(s: &Vec<char>, p: usize) -> (r: (Span, usize))
    requires
        p + 8 <= s@.len(),
    ensures
        (r.0, r.1 as int) == flags_spec(s@, p as int),
        r.0.start <= r.0.end <= r.1 <= s@.len(),
{
    let len = s.len();
    let q = scan(s, p + 8, CharClass::Blank);
    let le = scan(s, q, CharClass::NotNewline);
    let end = if le < len { le + 1 } else { le };
    let next = if end < len && s[end] == '\n' { end + 1 } else { end };
    (Span { start: q, end: le }, next)
}

fn read_record(s: &Vec<char>, p: usize) -> (r: Result<(MemoryMap, usize), ParseError>)
    requires
        p <= s@.len(),
    ensures
        match r {
            Ok((m, next)) => record_spec(s@, p as int) == Ok::<(MappingView, int), ParseError>((m@, next as int))
                && next <= s@.len(),
            Err(x) => record_spec(s@, p as int) == Err::<(MappingView, int), ParseError>(x),
        },
{
    let h = match read_header(s, p) {
        Ok(h) => h,
        Err(x) => {
            return Err(x);
        },
    };
    let (sizes, fp) = match read_counters(s, h.end) {
        Ok(c) => c,
        Err(x) => {
            return Err(x);
        },
    };
    let (flags, next) = read_flags(s, fp);
    let path = if h.path.start == h.path.end {
        None
    } else {
        Some(string_of(s, h.path.start, h.path.end))
    };
    let m = MemoryMap {
        address_range: h.range,
        permissions: string_of(s, h.permissions.start, h.permissions.end),
        offset: string_of(s, h.offset.start, h.offset.end),
        device: string_of(s, h.device.start, h.device.end),
        inode: string_of(s, h.inode.start, h.inode.end),
        path,
        sizes,
        vm_flags: string_of(s, flags.start, flags.end),
    };
    Ok((m, next))
}

/// Parses one counter line at the start of `input`. Gives how many characters it
/// took (up to, not including, its line break, which must follow the value) and the
/// counter's name and value.
pub fn parse_memory_line(input: &str) -> (r: Result<(usize, (String, Numeric)), ParseError>)
    ensures
        match (r, counter_spec(input@, 0)) {
            (Ok((used, (name, value))), Ok(c)) => used == c.end - 1 && value == c.value && name@
                == text_of(input@, c.label),
            (Err(x), Err(y)) => x == y,
            _ => false,
        },
{
    let s = chars_of(input);
    match read_counter(&s, 0) {
        Ok(c) => Ok((c.end - 1, (string_of(&s, c.label.start, c.label.end), c.value))),
        Err(x) => Err(x),
    }
}

/// Parses the record at the start of `input`. Gives how many characters it took and
/// the record.
pub fn parse_memory_map(input: &str) -> (r: Result<(usize, MemoryMap), ParseError>)
    ensures
        match r {
            Ok((used, m)) => record_spec(input@, 0) == Ok::<(MappingView, int), ParseError>((m@, used as int)),
            Err(x) => record_spec(input@, 0) == Err::<(MappingView, int), ParseError>(x),
        },
{
    let s = chars_of(input);
    match read_record(&s, 0) {
        Ok((m, used)) => Ok((used, m)),
        Err(x) => Err(x),
    }
}

/// Parses a whole report into its records, in order; the first malformed record fails
/// the whole parse. An empty report has no records.
pub fn parse(input: &str) -> (r: Result<Vec<MemoryMap>, ParseError>)
    ensures
        match r {
            Ok(v) => records_spec(input@, 0) == Ok::<Seq<MappingView>, ParseError>(
                v@.map_values(|m: MemoryMap| m@),
            ),
            Err(x) => records_spec(input@, 0) == Err::<Seq<MappingView>, ParseError>(x),
        },
{
    let s = chars_of(input);
    let mut out: Vec<MemoryMap> = Vec::new();
    let mut pos: usize = 0;
    while pos < s.len()
        invariant
            pos <= s@.len(),
            s@ == input@,
            records_spec(s@, 0) == match records_spec(s@, pos as int) {
                Ok(rest) => Ok(out@.map_values(|m: MemoryMap| m@) + rest),
                Err(x) => Err::<Seq<MappingView>, ParseError>(x),
            },
        decreases s@.len() - pos,
    {
        match read_record(&s, pos) {
            Err(x) => {
                assert(records_spec(s@, pos as int) == Err::<Seq<MappingView>, ParseError>(x));
                return Err(x);
            },
            Ok((m, next)) => {
                if next <= pos {
                    assert(records_spec(s@, pos as int) == Err::<Seq<MappingView>, ParseError>(
                        ParseError { kind: ParseErrorKind::Truncated, position: pos }));
                    return Err(ParseError { kind: ParseErrorKind::Truncated, position: pos });
                }
                let ghost before = out@.map_values(|m: MemoryMap| m@);
                let ghost mv = m@;
                out.push(m);
                proof {
                    assert(out@.map_values(|m: MemoryMap| m@) =~= before.push(mv));
                    match records_spec(s@, next as int) {
                        Ok(rest) => {
                            assert(before + (seq![mv] + rest) =~= before.push(mv) + rest);
                        },
                        Err(_) => {},
                    }
                }
                pos = next;
            },
        }
    }
    assert(out@.map_values(|m: MemoryMap| m@) + Seq::<MappingView>::empty() =~= out@.map_values(|m: MemoryMap| m@));
    Ok(out)
}

} // verus!
