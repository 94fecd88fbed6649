//! The record model: one mapping of a process's address space with its counters.
use vstd::prelude::*;
use crate::text::{
    chars_of, dec_text, digits_value, push_decimal, push_text, hex_digit_value, hex_in, hex_spec, in_class, is_hex_digit, push_char, run_end, scan,
    CharClass,
};

verus! {

/// A counter's value: a bare count, or a count of kilobytes.
#[derive(PartialEq, Eq, Structural, Debug, Clone, Copy)]
pub enum Numeric {
    Number(usize),
    Kb(usize),
}

impl Numeric {
    pub open spec fn magnitude(self) -> usize {
        match self {
            Numeric::Number(n) => n,
            Numeric::Kb(n) => n,
        }
    }

    /// The value as the report writes it: the digits, then ` kB` for kilobytes.
    pub open spec fn text(self) -> Seq<char> {
        match self {
            Numeric::Number(n) => dec_text(n as nat),
            Numeric::Kb(n) => dec_text(n as nat) + seq![' ', 'k', 'B'],
        }
    }

    /// The value as the report writes it.
    pub fn to_text(&self) -> (r: String)
        ensures
            r@ == self.text(),
    {
        let mut out = String::new();
        match self {
            Numeric::Number(num) => {
                push_decimal(&mut out, *num);
            },
            Numeric::Kb(num) => {
                push_decimal(&mut out, *num);
                push_text(&mut out, " kB");
                proof {
                    reveal_strlit(" kB");
                }
                assert(out@ =~= self.text());
            },
        }
        out
    }

    /// The magnitude, whatever the unit.
    pub fn value(&self) -> (r: usize)
        ensures
            r == self.magnitude(),
    {
        match self {
            Numeric::Number(num) => *num,
            Numeric::Kb(num) => *num,
        }
    }
}

/// An address range `[from, to)`. Ranges are ordered by their start alone.
#[derive(PartialEq, Eq, Structural, Debug, Clone, Copy)]
pub struct Range {
    pub from: usize,
    pub to: usize,
}

/// What a `<hex>-<hex>` token reads as.
pub open spec fn range_spec(s: Seq<char>) -> Option<Range> {
    let dash = run_end(s, 0, CharClass::Alnum);
    if dash < s.len() && s[dash] == '-' {
        let rest = s.subrange(dash + 1, s.len() as int);
        match (hex_spec(s.subrange(0, dash)), hex_spec(rest)) {
            (Some(from), Some(to)) => Some(Range { from, to }),
            _ => None,
        }
    } else {
        None
    }
}

/// The lowercase hexadecimal digit for `d < 16`.
pub open spec fn hex_char(d: nat) -> char {
    if d < 10 {
        ((48 + d) as u8) as char
    } else {
        ((87 + d) as u8) as char
    }
}

proof fn lemma_hex_char(d: nat)
    requires
        d < 16,
    ensures
        is_hex_digit(hex_char(d)),
        hex_digit_value(hex_char(d)) == d,
        in_class(hex_char(d), CharClass::Alnum),
{
}

/// `n` written in lowercase hexadecimal reads back as `n`.
pub proof fn lemma_hex_text(n: nat)
    requires
        n <= usize::MAX,
    ensures
        hex_spec(hex_text(n)) == Some(n as usize),
        forall|k: int| 0 <= k < hex_text(n).len() ==> in_class(#[trigger] hex_text(n)[k], CharClass::Alnum),
    decreases n,
{
    lemma_hex_char(n % 16);
    let t = hex_text(n);
    if n >= 16 {
        lemma_hex_text(n / 16);
        assert(t.drop_last() =~= hex_text(n / 16));
        assert(forall|k: int| 0 <= k < t.len() - 1 ==> t[k] == hex_text(n / 16)[k]);
        assert(digits_value(t, 16) == digits_value(hex_text(n / 16), 16) * 16 + n % 16);
        assert(forall|k: int| 0 <= k < t.len() ==> is_hex_digit(#[trigger] t[k]));
    } else {
        assert(t.drop_last() =~= Seq::<char>::empty());
        assert(digits_value(Seq::<char>::empty(), 16) == 0);
        assert(t.last() == hex_char(n % 16));
        assert(digits_value(t, 16) == n);
    }
}

proof fn lemma_run_end_at(s: Seq<char>, i: int, k: int, class: CharClass)
    requires
        0 <= i <= k <= s.len(),
        forall|j: int| i <= j < k ==> in_class(#[trigger] s[j], class),
        k == s.len() || !in_class(s[k], class),
    ensures
        run_end(s, i, class) == k,
    decreases k - i,
{
    if i < k {
        lemma_run_end_at(s, i + 1, k, class);
    }
}

/// `n` written in lowercase hexadecimal, without leading zeros (`0` is `"0"`).
pub open spec fn hex_text(n: nat) -> Seq<char>
    decreases n,
{
    if n < 16 {
        seq![hex_char(n)]
    } else {
        hex_text(n / 16).push(hex_char(n % 16))
    }
}

impl Range {
    /// Reads a `<hex>-<hex>` token.
    pub fn try_from(value: &str) -> (r: Result<Range, &'static str>)
        ensures
            r is Ok <==> range_spec(value@) is Some,
            r is Ok ==> r->Ok_0 == range_spec(value@)->0,
            r is Err ==> r->Err_0@ == "cant parse"@,
    {
        let s = chars_of(value);
        let dash = scan(&s, 0, CharClass::Alnum);
        if dash < s.len() && s[dash] == '-' {
            match (hex_in(&s, 0, dash), hex_in(&s, dash + 1, s.len())) {
                (Some(from), Some(to)) => Ok(Range { from, to }),
                _ => Err("cant parse"),
            }
        } else {
            Err("cant parse")
        }
    }

    /// The `<hex>-<hex>` text of the range, in lowercase digits.
    pub open spec fn text(self) -> Seq<char> {
        hex_text(self.from as nat) + seq!['-'] + hex_text(self.to as nat)
    }

    /// The `<hex>-<hex>` text of the range.
    pub fn to_text(&self) -> (r: String)
        ensures
            r@ == self.text(),
    {
        let mut out = String::new();
        push_hex(&mut out, self.from);
        push_char(&mut out, '-');
        push_hex(&mut out, self.to);
        assert(out@ =~= self.text());
        out
    }

    /// Whether `self` starts before `other`.
    pub fn starts_before(&self, other: &Range) -> (r: bool)
        ensures
            r == (self.from < other.from),
    {
        self.from < other.from
    }
}

/// Appends `n` in lowercase hexadecimal to `out`.
fn push_hex(out: &mut String, n: usize)
    ensures
        final(out)@ == old(out)@ + hex_text(n as nat),
    decreases n,
{
    if n >= 16 {
        push_hex(out, n / 16);
    }
    let d = n % 16;
    let c = if d < 10 { (48 + d as u8) as char } else { (87 + d as u8) as char };
    push_char(out, c);
    assert(final(out)@ =~= old(out)@ + hex_text(n as nat));
}

/// A range printed as text reads back as the same range.
pub proof fn lemma_range_text_round_trip(r: Range)
    ensures
        range_spec(r.text()) == Some(r),
{
    let a = hex_text(r.from as nat);
    let b = hex_text(r.to as nat);
    let s = r.text();
    lemma_hex_text(r.from as nat);
    lemma_hex_text(r.to as nat);
    assert(s[a.len() as int] == '-');
    assert forall|j: int| 0 <= j < a.len() implies in_class(#[trigger] s[j], CharClass::Alnum) by {
        assert(s[j] == a[j]);
    }
    lemma_run_end_at(s, 0, a.len() as int, CharClass::Alnum);
    assert(s.subrange(0, a.len() as int) =~= a);
    assert(s.subrange(a.len() as int + 1, s.len() as int) =~= b);
}

/// The counters of one mapping, kept in ascending order of name, so names are unique.
#[derive(PartialEq, Eq, Debug, Clone)]
pub struct Counters {
    pub entries: Vec<(String, Numeric)>,
}

pub type CounterSeq = Seq<(Seq<char>, Numeric)>;

/// The position of the counter named `k` in `e`, if any.
pub open spec fn index_of(e: CounterSeq, k: Seq<char>) -> Option<int>
    decreases e.len(),
{
    if e.len() == 0 {
        None
    } else if e.last().0 == k {
        Some(e.len() - 1)
    } else {
        index_of(e.drop_last(), k)
    }
}

/// The value of the counter named `k` in `e`, if any.
pub open spec fn lookup(e: CounterSeq, k: Seq<char>) -> Option<Numeric> {
    match index_of(e, k) {
        Some(i) => Some(e[i].1),
        None => None,
    }
}

/// Names in lexicographic order of their characters (which for strings is the order of
/// their UTF-8 bytes, the order of `String`'s `Ord`).
pub open spec fn name_lt(a: Seq<char>, b: Seq<char>) -> bool
    decreases a.len(),
{
    if a.len() == 0 {
        b.len() > 0
    } else if b.len() == 0 {
        false
    } else if a[0] != b[0] {
        a[0] < b[0]
    } else {
        name_lt(a.drop_first(), b.drop_first())
    }
}

pub proof fn lemma_name_lt_total(a: Seq<char>, b: Seq<char>)
    ensures
        a == b || name_lt(a, b) || name_lt(b, a),
    decreases a.len(),
{
    if a.len() > 0 && b.len() > 0 && a[0] == b[0] {
        lemma_name_lt_total(a.drop_first(), b.drop_first());
        if a.drop_first() == b.drop_first() {
            assert(a =~= seq![a[0]] + a.drop_first());
            assert(b =~= seq![b[0]] + b.drop_first());
        }
    } else if a.len() == 0 && b.len() == 0 {
        assert(a =~= b);
    }
}

pub proof fn lemma_name_lt_transitive(a: Seq<char>, b: Seq<char>, c: Seq<char>)
    requires
        name_lt(a, b),
        name_lt(b, c),
    ensures
        name_lt(a, c),
    decreases a.len(),
{
    if a.len() > 0 && a[0] == b[0] && b[0] == c[0] {
        lemma_name_lt_transitive(a.drop_first(), b.drop_first(), c.drop_first());
    }
}

/// Names strictly ascend along `e`.
pub open spec fn sorted_names(e: CounterSeq) -> bool {
    forall|i: int, j: int| 0 <= i < j < e.len() ==> name_lt(#[trigger] e[i].0, #[trigger] e[j].0)
}

/// How many leading counters of `e` have a name before `k`: where `k` stands or belongs.
pub open spec fn lower_bound(e: CounterSeq, k: Seq<char>) -> int
    decreases e.len(),
{
    if e.len() > 0 && name_lt(e[0].0, k) {
        1 + lower_bound(e.drop_first(), k)
    } else {
        0
    }
}

proof fn lemma_lower_bound_at(e: CounterSeq, k: Seq<char>, i: int)
    requires
        0 <= i <= e.len(),
        forall|j: int| 0 <= j < i ==> name_lt(#[trigger] e[j].0, k),
        i == e.len() || !name_lt(e[i].0, k),
    ensures
        lower_bound(e, k) == i,
    decreases i,
{
    if i > 0 {
        assert(name_lt(e[0].0, k));
        assert forall|j: int| 0 <= j < i - 1 implies name_lt(#[trigger] e.drop_first()[j].0, k) by {
            assert(e.drop_first()[j] == e[j + 1]);
        }
        if i < e.len() {
            assert(e.drop_first()[i - 1] == e[i]);
        }
        lemma_lower_bound_at(e.drop_first(), k, i - 1);
    }
}

/// `e` with the counter `k` set to `v`: replaced in place where present, else inserted
/// where its name belongs.
pub open spec fn put(e: CounterSeq, k: Seq<char>, v: Numeric) -> CounterSeq {
    let i = lower_bound(e, k);
    if i < e.len() && e[i].0 == k {
        e.update(i, (k, v))
    } else {
        e.insert(i, (k, v))
    }
}

/// `e` with each counter of `p` set in turn.
pub open spec fn put_all(e: CounterSeq, p: CounterSeq) -> CounterSeq
    decreases p.len(),
{
    if p.len() == 0 {
        e
    } else {
        put(put_all(e, p.drop_last()), p.last().0, p.last().1)
    }
}

pub proof fn lemma_index_of(e: CounterSeq, k: Seq<char>)
    ensures
        index_of(e, k) matches Some(i) ==> 0 <= i < e.len() && e[i].0 == k,
        index_of(e, k) is None ==> forall|i: int| 0 <= i < e.len() ==> #[trigger] e[i].0 != k,
    decreases e.len(),
{
    if e.len() > 0 && e.last().0 != k {
        lemma_index_of(e.drop_last(), k);
        if index_of(e, k) is None {
            assert forall|i: int| 0 <= i < e.len() implies #[trigger] e[i].0 != k by {
                if i < e.len() - 1 {
                    assert(e[i] == e.drop_last()[i]);
                }
            }
        }
    }
}

/// Whether the name `a` comes before `b`.
fn name_less(a: &String, b: &String) -> (r: bool)
    ensures
        r == name_lt(a@, b@),
{
    let x = chars_of(a.as_str());
    let y = chars_of(b.as_str());
    let mut i: usize = 0;
    assert(x@.skip(0) =~= a@);
    assert(y@.skip(0) =~= b@);
    while i < x.len() && i < y.len() && x[i] == y[i]
        invariant
            i <= x@.len(),
            i <= y@.len(),
            name_lt(x@.skip(i as int), y@.skip(i as int)) == name_lt(a@, b@),
        decreases x@.len() - i,
    {
        assert(x@.skip(i as int).drop_first() =~= x@.skip(i + 1));
        assert(y@.skip(i as int).drop_first() =~= y@.skip(i + 1));
        i = i + 1;
    }
    if i == x.len() {
        i < y.len()
    } else if i == y.len() {
        false
    } else {
        x[i] < y[i]
    }
}

impl View for Counters {
    type V = CounterSeq;

    open spec fn view(&self) -> CounterSeq {
        self.entries@.map_values(|p: (String, Numeric)| (p.0@, p.1))
    }
}

impl Counters {
    pub open spec fn wf(&self) -> bool {
        sorted_names(self@)
    }

    /// No counters.
    pub fn new() -> (r: Counters)
        ensures
            r@ == Seq::<(Seq<char>, Numeric)>::empty(),
            r.wf(),
    {
        Counters { entries: Vec::new() }
    }

    /// Where the counter named `key` stands.
    fn position(&self, key: &String) -> (r: Option<usize>)
        ensures
            r matches Some(i) ==> index_of(self@, key@) == Some(i as int) && i < self@.len(),
            r is None ==> index_of(self@, key@) is None,
    {
        proof {
            lemma_index_of(self@, key@);
        }
        let mut k: usize = self.entries.len();
        assert(self@.subrange(0, k as int) =~= self@);
        while k > 0
            invariant
                k <= self.entries@.len(),
                index_of(self@, key@) == index_of(self@.subrange(0, k as int), key@),
            decreases k,
        {
            assert(self@.subrange(0, k as int).drop_last() =~= self@.subrange(0, k - 1));
            if self.entries[k - 1].0 == *key {
                return Some(k - 1);
            }
            k = k - 1;
        }
        None
    }

    /// Sets the counter named `key` to `value`, replacing an earlier value under that name.
    pub fn insert(&mut self, key: String, value: Numeric)
        requires
            old(self).wf(),
        ensures
            final(self)@ == put(old(self)@, key@, value),
            final(self).wf(),
    {
        let ghost e = self@;
        let ghost k = key@;
        let mut i: usize = 0;
        while i < self.entries.len() && name_less(&self.entries[i].0, &key)
            invariant
                e == self@,
                k == key@,
                i <= self@.len(),
                forall|j: int| 0 <= j < i ==> name_lt(#[trigger] e[j].0, k),
            decreases self@.len() - i,
        {
            i = i + 1;
        }
        proof {
            lemma_lower_bound_at(e, k, i as int);
        }
        if i < self.entries.len() && self.entries[i].0 == key {
            self.entries.set(i, (key, value));
            assert(self@ =~= put(e, k, value));
            assert forall|p: int, q: int| 0 <= p < q < self@.len() implies name_lt(
                #[trigger] self@[p].0,
                #[trigger] self@[q].0,
            ) by {
                assert(self@[p].0 == e[p].0 && self@[q].0 == e[q].0);
            }
        } else {
            proof {
                assert forall|j: int| i <= j < e.len() implies name_lt(k, #[trigger] e[j].0) by {
                    lemma_name_lt_total(e[i as int].0, k);
                    if j > i {
                        assert(name_lt(e[i as int].0, e[j].0));
                        lemma_name_lt_transitive(k, e[i as int].0, e[j].0);
                    }
                }
            }
            self.entries.insert(i, (key, value));
            assert(self@ =~= put(e, k, value));
            assert forall|p: int, q: int| 0 <= p < q < self@.len() implies name_lt(
                #[trigger] self@[p].0,
                #[trigger] self@[q].0,
            ) by {
                if q < i {
                    assert(self@[p] == e[p] && self@[q] == e[q]);
                } else if q == i {
                    assert(self@[p] == e[p]);
                } else if p < i {
                    assert(self@[p] == e[p] && self@[q] == e[q - 1]);
                    lemma_name_lt_transitive(e[p].0, k, e[q - 1].0);
                } else if p == i {
                    assert(self@[q] == e[q - 1]);
                } else {
                    assert(self@[p] == e[p - 1] && self@[q] == e[q - 1]);
                }
            }
        }
    }

    /// The counters named in `pairs`, a later value replacing an earlier one of the same name.
    pub fn from_pairs(pairs: Vec<(String, Numeric)>) -> (r: Counters)
        ensures
            r.wf(),
            r@ == put_all(Seq::empty(), pairs@.map_values(|p: (String, Numeric)| (p.0@, p.1))),
    {
        let ghost ps = pairs@.map_values(|p: (String, Numeric)| (p.0@, p.1));
        let mut c = Counters::new();
        let mut k: usize = 0;
        while k < pairs.len()
            invariant
                k <= pairs@.len(),
                ps == pairs@.map_values(|p: (String, Numeric)| (p.0@, p.1)),
                c.wf(),
                c@ == put_all(Seq::empty(), ps.subrange(0, k as int)),
            decreases pairs@.len() - k,
        {
            assert(ps.subrange(0, k + 1).drop_last() =~= ps.subrange(0, k as int));
            let name = pairs[k].0.clone();
            c.insert(name, pairs[k].1);
            k = k + 1;
        }
        assert(ps.subrange(0, k as int) =~= ps);
        c
    }

    /// The value of the counter named `key`.
    pub fn get(&self, key: &str) -> (r: Option<Numeric>)
        ensures
            r == lookup(self@, key@),
    {
        let k = key.to_owned();
        match self.position(&k) {
            Some(i) => Some(self.entries[i].1),
            None => None,
        }
    }

    /// A copy with the same counters.
    pub fn duplicate(&self) -> (r: Counters)
        ensures
            r@ == self@,
    {
        let mut out: Vec<(String, Numeric)> = Vec::new();
        let mut k: usize = 0;
        while k < self.entries.len()
            invariant
                k <= self.entries@.len(),
                out@.map_values(|p: (String, Numeric)| (p.0@, p.1)) =~= self@.subrange(0, k as int),
            decreases self.entries@.len() - k,
        {
            let name = self.entries[k].0.clone();
            let ghost before = out@;
            out.push((name, self.entries[k].1));
            assert(out@ =~= before.push((name, self.entries@[k as int].1)));
            assert(self@.subrange(0, k + 1) =~= self@.subrange(0, k as int).push(self@[k as int]));
            k = k + 1;
        }
        Counters { entries: out }
    }
}

/// One mapping of the address space: its range, the header's fields, its counters
/// and its flags.
#[derive(PartialEq, Eq, Debug, Clone)]
pub struct MemoryMap {
    pub address_range: Range,
    pub permissions: String,
    pub offset: String,
    pub device: String,
    pub inode: String,
    pub path: Option<String>,
    pub sizes: Counters,
    pub vm_flags: String,
}

/// The mathematical value of a `MemoryMap`.
pub struct MappingView {
    pub range: Range,
    pub permissions: Seq<char>,
    pub offset: Seq<char>,
    pub device: Seq<char>,
    pub inode: Seq<char>,
    pub path: Option<Seq<char>>,
    pub sizes: CounterSeq,
    pub vm_flags: Seq<char>,
}

pub open spec fn size_name() -> Seq<char> {
    seq!['S', 'i', 'z', 'e']
}

pub open spec fn rss_name() -> Seq<char> {
    seq!['R', 's', 's']
}

pub open spec fn magnitude_of(v: Option<Numeric>) -> Option<usize> {
    match v {
        Some(n) => Some(n.magnitude()),
        None => None,
    }
}

/// The counters with a nonzero magnitude, one `<name>=<value>` line each, in the order of
/// `e` (for well-formed counters, ascending name order).
pub open spec fn counters_text(e: CounterSeq) -> Seq<char>
    decreases e.len(),
{
    if e.len() == 0 {
        Seq::empty()
    } else {
        counters_text(e.drop_last()) + if e.last().1.magnitude() != 0 {
            e.last().0 + seq!['='] + e.last().1.text() + seq!['\n']
        } else {
            Seq::empty()
        }
    }
}

impl MappingView {
    /// A line of the range, the header's fields, the flags and the path (empty where there
    /// is none), followed by the nonzero counters.
    pub open spec fn text(self) -> Seq<char> {
        self.range.text() + seq![' '] + self.permissions + seq![' '] + self.offset + seq![' ']
            + self.device + seq![' '] + self.inode + seq![' '] + self.vm_flags + seq![' '] + match self.path {
            Some(p) => p,
            None => Seq::empty(),
        } + seq!['\n'] + counters_text(self.sizes)
    }

    /// The total size counter's magnitude.
    pub open spec fn size(self) -> Option<usize> {
        magnitude_of(lookup(self.sizes, size_name()))
    }

    /// The resident set size counter's magnitude.
    pub open spec fn rss(self) -> Option<usize> {
        magnitude_of(lookup(self.sizes, rss_name()))
    }

    /// Whether two mappings at one start differ in end, total size or resident size.
    pub open spec fn differs(self, other: MappingView) -> bool {
        self.range.to != other.range.to || self.size() != other.size() || self.rss() != other.rss()
    }
}

impl View for MemoryMap {
    type V = MappingView;

    open spec fn view(&self) -> MappingView {
        MappingView {
            range: self.address_range,
            permissions: self.permissions@,
            offset: self.offset@,
            device: self.device@,
            inode: self.inode@,
            path: match self.path {
                Some(p) => Some(p@),
                None => None,
            },
            sizes: self.sizes@,
            vm_flags: self.vm_flags@,
        }
    }
}

impl MemoryMap {
    /// The magnitude of the `Size` counter.
    pub fn size(&self) -> (r: Option<usize>)
        ensures
            r == self@.size(),
    {
        proof {
            reveal_strlit("Size");
            assert("Size"@ =~= size_name());
        }
        match self.sizes.get("Size") {
            Some(n) => Some(n.value()),
            None => None,
        }
    }

    /// The magnitude of the `Rss` counter.
    pub fn rss(&self) -> (r: Option<usize>)
        ensures
            r == self@.rss(),
    {
        proof {
            reveal_strlit("Rss");
            assert("Rss"@ =~= rss_name());
        }
        match self.sizes.get("Rss") {
            Some(n) => Some(n.value()),
            None => None,
        }
    }

    /// The mapping as text: see `MappingView::text`.
    pub fn to_text(&self) -> (r: String)
        ensures
            r@ == self@.text(),
    {
        let mut out = self.address_range.to_text();
        push_char(&mut out, ' ');
        push_text(&mut out, self.permissions.as_str());
        push_char(&mut out, ' ');
        push_text(&mut out, self.offset.as_str());
        push_char(&mut out, ' ');
        push_text(&mut out, self.device.as_str());
        push_char(&mut out, ' ');
        push_text(&mut out, self.inode.as_str());
        push_char(&mut out, ' ');
        push_text(&mut out, self.vm_flags.as_str());
        push_char(&mut out, ' ');
        match &self.path {
            Some(p) => push_text(&mut out, p.as_str()),
            None => {},
        }
        push_char(&mut out, '\n');
        let ghost head = out@;
        let e = &self.sizes.entries;
        let mut k: usize = 0;
        while k < e.len()
            invariant
                k <= e@.len(),
                e == &self.sizes.entries,
                out@ == head + counters_text(self.sizes@.subrange(0, k as int)),
            decreases e@.len() - k,
        {
            assert(self.sizes@.subrange(0, k + 1).drop_last() =~= self.sizes@.subrange(0, k as int));
            if e[k].1.value() != 0 {
                push_text(&mut out, e[k].0.as_str());
                push_char(&mut out, '=');
                let v = e[k].1.to_text();
                push_text(&mut out, v.as_str());
                push_char(&mut out, '\n');
                assert(out@ =~= head + counters_text(self.sizes@.subrange(0, k + 1)));
            } else {
                assert(out@ =~= head + counters_text(self.sizes@.subrange(0, k + 1)));
            }
            k = k + 1;
        }
        assert(self.sizes@.subrange(0, k as int) =~= self.sizes@);
        assert(out@ =~= self@.text());
        out
    }

    /// Whether `self` starts before `other`.
    pub fn starts_before(&self, other: &MemoryMap) -> (r: bool)
        ensures
            r == (self@.range.from < other@.range.from),
    {
        self.address_range.starts_before(&other.address_range)
    }

    /// A copy of the mapping.
    pub fn duplicate(&self) -> (r: MemoryMap)
        ensures
            r@ == self@,
    {
        MemoryMap {
            address_range: self.address_range,
            permissions: self.permissions.clone(),
            offset: self.offset.clone(),
            device: self.device.clone(),
            inode: self.inode.clone(),
            path: match &self.path {
                Some(p) => Some(p.clone()),
                None => None,
            },
            sizes: self.sizes.duplicate(),
            vm_flags: self.vm_flags.clone(),
        }
    }
}

} // verus!
