//! Comparing two snapshots, each ordered by start address, in one merge pass.
use vstd::prelude::*;
use crate::memory_map::{MappingView, MemoryMap};

verus! {

/// The mappings that appeared, disappeared or changed between two snapshots.
pub struct Diffs {
    pub added: Vec<MemoryMap>,
    pub removed: Vec<MemoryMap>,
    pub changed: Vec<(MemoryMap, MemoryMap)>,
}

pub struct DiffView {
    pub added: Seq<MappingView>,
    pub removed: Seq<MappingView>,
    pub changed: Seq<(MappingView, MappingView)>,
}

pub open spec fn views(v: Seq<MemoryMap>) -> Seq<MappingView> {
    v.map_values(|m: MemoryMap| m@)
}

pub open spec fn pair_views(v: Seq<(MemoryMap, MemoryMap)>) -> Seq<(MappingView, MappingView)> {
    v.map_values(|p: (MemoryMap, MemoryMap)| (p.0@, p.1@))
}

impl View for Diffs {
    type V = DiffView;

    open spec fn view(&self) -> DiffView {
        DiffView {
            added: views(self.added@),
            removed: views(self.removed@),
            changed: pair_views(self.changed@),
        }
    }
}

/// The merge of `a` (the earlier snapshot) and `b` (the later one), walked from the front:
/// a start present only in `a` is removed, one only in `b` is added, and one present in
/// both is changed where end, total size or resident size differ.
pub open spec fn diff_spec(a: Seq<MappingView>, b: Seq<MappingView>) -> DiffView
    decreases a.len() + b.len(),
{
    if a.len() == 0 {
        DiffView { added: b, removed: Seq::empty(), changed: Seq::empty() }
    } else if b.len() == 0 {
        DiffView { added: Seq::empty(), removed: a, changed: Seq::empty() }
    } else if a[0].range.from < b[0].range.from {
        let r = diff_spec(a.drop_first(), b);
        DiffView { removed: seq![a[0]] + r.removed, ..r }
    } else if b[0].range.from < a[0].range.from {
        let r = diff_spec(a, b.drop_first());
        DiffView { added: seq![b[0]] + r.added, ..r }
    } else {
        let r = diff_spec(a.drop_first(), b.drop_first());
        if a[0].differs(b[0]) {
            DiffView { changed: seq![(a[0], b[0])] + r.changed, ..r }
        } else {
            r
        }
    }
}

/// `d` followed by `e`, field by field.
pub open spec fn join(d: DiffView, e: DiffView) -> DiffView {
    DiffView { added: d.added + e.added, removed: d.removed + e.removed, changed: d.changed + e.changed }
}

/// Start addresses strictly increase along `s`.
pub open spec fn sorted_by_start(s: Seq<MappingView>) -> bool {
    forall|i: int, j: int| 0 <= i < j < s.len() ==> #[trigger] s[i].range.from < #[trigger] s[j].range.from
}

/// Every start along `s` lies above `lo`.
pub open spec fn all_above(s: Seq<MappingView>, lo: int) -> bool {
    forall|i: int| 0 <= i < s.len() ==> #[trigger] s[i].range.from > lo
}

/// The changed pairs: ordered by start, each pair at one start.
pub open spec fn pairs_sorted(c: Seq<(MappingView, MappingView)>) -> bool {
    &&& forall|i: int, j: int|
        0 <= i < j < c.len() ==> #[trigger] c[i].0.range.from < #[trigger] c[j].0.range.from
    &&& forall|i: int| 0 <= i < c.len() ==> #[trigger] c[i].0.range.from == c[i].1.range.from
}

pub open spec fn pairs_above(c: Seq<(MappingView, MappingView)>, lo: int) -> bool {
    forall|i: int| 0 <= i < c.len() ==> #[trigger] c[i].0.range.from > lo
}

/// Diffing a snapshot with itself reports nothing added, removed or changed.
pub proof fn lemma_diff_self_empty(a: Seq<MappingView>)
    ensures
        diff_spec(a, a).added.len() == 0,
        diff_spec(a, a).removed.len() == 0,
        diff_spec(a, a).changed.len() == 0,
    decreases a.len(),
{
    if a.len() > 0 {
        lemma_diff_self_empty(a.drop_first());
    }
}

proof fn lemma_diff_above(a: Seq<MappingView>, b: Seq<MappingView>, lo: int)
    requires
        all_above(a, lo),
        all_above(b, lo),
    ensures
        all_above(diff_spec(a, b).added, lo),
        all_above(diff_spec(a, b).removed, lo),
        pairs_above(diff_spec(a, b).changed, lo),
    decreases a.len() + b.len(),
{
    if a.len() > 0 && b.len() > 0 {
        if a[0].range.from < b[0].range.from {
            lemma_diff_above(a.drop_first(), b, lo);
        } else if b[0].range.from < a[0].range.from {
            lemma_diff_above(a, b.drop_first(), lo);
        } else {
            lemma_diff_above(a.drop_first(), b.drop_first(), lo);
        }
    }
}

proof fn lemma_sorted_tail(a: Seq<MappingView>)
    requires
        sorted_by_start(a),
        a.len() > 0,
    ensures
        sorted_by_start(a.drop_first()),
        all_above(a.drop_first(), a[0].range.from as int),
{
    assert forall|i: int| 0 <= i < a.drop_first().len() implies #[trigger] a.drop_first()[i].range.from
        > a[0].range.from by {
        assert(a.drop_first()[i] == a[i + 1]);
    }
    assert forall|i: int, j: int| 0 <= i < j < a.drop_first().len() implies #[trigger] a.drop_first()[i].range.from
        < #[trigger] a.drop_first()[j].range.from by {
        assert(a.drop_first()[i] == a[i + 1]);
        assert(a.drop_first()[j] == a[j + 1]);
    }
}

proof fn lemma_sorted_cons(x: MappingView, s: Seq<MappingView>)
    requires
        sorted_by_start(s),
        all_above(s, x.range.from as int),
    ensures
        sorted_by_start(seq![x] + s),
{
    let t = seq![x] + s;
    assert forall|i: int, j: int| 0 <= i < j < t.len() implies #[trigger] t[i].range.from
        < #[trigger] t[j].range.from by {
        assert(t[j] == s[j - 1]);
        if i > 0 {
            assert(t[i] == s[i - 1]);
        }
    }
}

/// On snapshots ordered by start address, each list that the diff reports is ordered by
/// start address too, and each changed pair shares one start.
pub proof fn lemma_diff_ordered(a: Seq<MappingView>, b: Seq<MappingView>)
    requires
        sorted_by_start(a),
        sorted_by_start(b),
    ensures
        sorted_by_start(diff_spec(a, b).added),
        sorted_by_start(diff_spec(a, b).removed),
        pairs_sorted(diff_spec(a, b).changed),
    decreases a.len() + b.len(),
{
    if a.len() > 0 && b.len() > 0 {
        if a[0].range.from < b[0].range.from {
            lemma_sorted_tail(a);
            lemma_diff_ordered(a.drop_first(), b);
            let r = diff_spec(a.drop_first(), b);
            assert(all_above(b, a[0].range.from as int)) by {
                lemma_sorted_tail(b);
                assert forall|i: int| 0 <= i < b.len() implies #[trigger] b[i].range.from
                    > a[0].range.from by {
                    if i > 0 {
                        assert(b[i] == b.drop_first()[i - 1]);
                    }
                }
            }
            lemma_diff_above(a.drop_first(), b, a[0].range.from as int);
            lemma_sorted_cons(a[0], r.removed);
        } else if b[0].range.from < a[0].range.from {
            lemma_sorted_tail(b);
            lemma_diff_ordered(a, b.drop_first());
            let r = diff_spec(a, b.drop_first());
            assert(all_above(a, b[0].range.from as int)) by {
                lemma_sorted_tail(a);
                assert forall|i: int| 0 <= i < a.len() implies #[trigger] a[i].range.from
                    > b[0].range.from by {
                    if i > 0 {
                        assert(a[i] == a.drop_first()[i - 1]);
                    }
                }
            }
            lemma_diff_above(a, b.drop_first(), b[0].range.from as int);
            lemma_sorted_cons(b[0], r.added);
        } else {
            lemma_sorted_tail(a);
            lemma_sorted_tail(b);
            lemma_diff_ordered(a.drop_first(), b.drop_first());
            let r = diff_spec(a.drop_first(), b.drop_first());
            lemma_diff_above(a.drop_first(), b.drop_first(), a[0].range.from as int);
            if a[0].differs(b[0]) {
                let c = seq![(a[0], b[0])] + r.changed;
                assert forall|i: int, j: int| 0 <= i < j < c.len() implies #[trigger] c[i].0.range.from
                    < #[trigger] c[j].0.range.from by {
                    assert(c[j] == r.changed[j - 1]);
                    if i > 0 {
                        assert(c[i] == r.changed[i - 1]);
                    }
                }
                assert forall|i: int| 0 <= i < c.len() implies #[trigger] c[i].0.range.from
                    == c[i].1.range.from by {
                    if i > 0 {
                        assert(c[i] == r.changed[i - 1]);
                    }
                }
            }
        }
    }
}

/// The pairs that the merge matches by start and finds unchanged, in merge order.
pub open spec fn kept_spec(a: Seq<MappingView>, b: Seq<MappingView>) -> Seq<(MappingView, MappingView)>
    decreases a.len() + b.len(),
{
    if a.len() == 0 || b.len() == 0 {
        Seq::empty()
    } else if a[0].range.from < b[0].range.from {
        kept_spec(a.drop_first(), b)
    } else if b[0].range.from < a[0].range.from {
        kept_spec(a, b.drop_first())
    } else {
        let r = kept_spec(a.drop_first(), b.drop_first());
        if a[0].differs(b[0]) {
            r
        } else {
            seq![(a[0], b[0])] + r
        }
    }
}

pub open spec fn firsts(c: Seq<(MappingView, MappingView)>) -> Seq<MappingView> {
    c.map_values(|p: (MappingView, MappingView)| p.0)
}

pub open spec fn seconds(c: Seq<(MappingView, MappingView)>) -> Seq<MappingView> {
    c.map_values(|p: (MappingView, MappingView)| p.1)
}

proof fn lemma_multiset_cons(x: MappingView, s: Seq<MappingView>)
    ensures
        (seq![x] + s).to_multiset() =~= s.to_multiset().insert(x),
{
    broadcast use vstd::seq_lib::group_to_multiset_ensures, vstd::multiset::group_multiset_axioms;

    vstd::seq_lib::lemma_multiset_commutative(seq![x], s);
    assert(seq![x] =~= Seq::<MappingView>::empty().push(x));
}

proof fn lemma_pairs_cons(p: (MappingView, MappingView), c: Seq<(MappingView, MappingView)>)
    ensures
        firsts(seq![p] + c) =~= seq![p.0] + firsts(c),
        seconds(seq![p] + c) =~= seq![p.1] + seconds(c),
{
}

/// Every mapping of the earlier snapshot `a` is reported exactly once: as removed, as the
/// earlier half of a changed pair, or else it is kept, that is matched by start with a
/// mapping of `b` of the same end, total size and resident size. Likewise every mapping of
/// the later snapshot `b` is added, the later half of a changed pair, or kept.
pub proof fn lemma_diff_complete(a: Seq<MappingView>, b: Seq<MappingView>)
    ensures
        a.to_multiset() =~= diff_spec(a, b).removed.to_multiset().add(
            firsts(diff_spec(a, b).changed).to_multiset(),
        ).add(firsts(kept_spec(a, b)).to_multiset()),
        b.to_multiset() =~= diff_spec(a, b).added.to_multiset().add(
            seconds(diff_spec(a, b).changed).to_multiset(),
        ).add(seconds(kept_spec(a, b)).to_multiset()),
        forall|i: int|
            0 <= i < diff_spec(a, b).changed.len() ==> (#[trigger] diff_spec(a, b).changed[i]).0.range.from
                == diff_spec(a, b).changed[i].1.range.from && diff_spec(a, b).changed[i].0.differs(
                diff_spec(a, b).changed[i].1,
            ),
        forall|i: int|
            0 <= i < kept_spec(a, b).len() ==> (#[trigger] kept_spec(a, b)[i]).0.range.from
                == kept_spec(a, b)[i].1.range.from && !kept_spec(a, b)[i].0.differs(
                kept_spec(a, b)[i].1,
            ),
    decreases a.len() + b.len(),
{
    broadcast use vstd::seq_lib::group_to_multiset_ensures, vstd::multiset::group_multiset_axioms;

    let d = diff_spec(a, b);
    let k = kept_spec(a, b);
    if a.len() == 0 || b.len() == 0 {
        assert(firsts(k) =~= Seq::<MappingView>::empty());
        assert(seconds(k) =~= Seq::<MappingView>::empty());
        assert(firsts(d.changed) =~= Seq::<MappingView>::empty());
        assert(seconds(d.changed) =~= Seq::<MappingView>::empty());
    } else {
        assert(a =~= seq![a[0]] + a.drop_first());
        assert(b =~= seq![b[0]] + b.drop_first());
        lemma_multiset_cons(a[0], a.drop_first());
        lemma_multiset_cons(b[0], b.drop_first());
        if a[0].range.from < b[0].range.from {
            lemma_diff_complete(a.drop_first(), b);
            lemma_multiset_cons(a[0], diff_spec(a.drop_first(), b).removed);
        } else if b[0].range.from < a[0].range.from {
            lemma_diff_complete(a, b.drop_first());
            lemma_multiset_cons(b[0], diff_spec(a, b.drop_first()).added);
        } else {
            let r = diff_spec(a.drop_first(), b.drop_first());
            let rk = kept_spec(a.drop_first(), b.drop_first());
            lemma_diff_complete(a.drop_first(), b.drop_first());
            lemma_pairs_cons((a[0], b[0]), r.changed);
            lemma_pairs_cons((a[0], b[0]), rk);
            if a[0].differs(b[0]) {
                lemma_multiset_cons(a[0], firsts(r.changed));
                lemma_multiset_cons(b[0], seconds(r.changed));
                let c = d.changed;
                assert forall|i: int| 0 <= i < c.len() implies (#[trigger] c[i]).0.range.from
                    == c[i].1.range.from && c[i].0.differs(c[i].1) by {
                    if i > 0 {
                        assert(c[i] == r.changed[i - 1]);
                    }
                }
            } else {
                lemma_multiset_cons(a[0], firsts(rk));
                lemma_multiset_cons(b[0], seconds(rk));
                assert forall|i: int| 0 <= i < k.len() implies (#[trigger] k[i]).0.range.from
                    == k[i].1.range.from && !k[i].0.differs(k[i].1) by {
                    if i > 0 {
                        assert(k[i] == rk[i - 1]);
                    }
                }
            }
        }
    }
}

/// Every mapping that the diff reports comes from its snapshot: removed ones and the
/// earlier halves of changed pairs from `a`, added ones and the later halves from `b`.
pub proof fn lemma_diff_from_inputs(a: Seq<MappingView>, b: Seq<MappingView>)
    ensures
        forall|x: MappingView| #[trigger] diff_spec(a, b).removed.contains(x) ==> a.contains(x),
        forall|x: MappingView| #[trigger] diff_spec(a, b).added.contains(x) ==> b.contains(x),
        forall|i: int|
            0 <= i < diff_spec(a, b).changed.len() ==> a.contains(
                (#[trigger] diff_spec(a, b).changed[i]).0,
            ) && b.contains(diff_spec(a, b).changed[i].1),
{
    broadcast use vstd::seq_lib::group_to_multiset_ensures, vstd::multiset::group_multiset_axioms;

    let d = diff_spec(a, b);
    let k = kept_spec(a, b);
    lemma_diff_complete(a, b);
    assert forall|x: MappingView| #[trigger] d.removed.contains(x) implies a.contains(x) by {
        assert(d.removed.to_multiset().count(x) > 0);
        assert(a.to_multiset().count(x) == d.removed.to_multiset().count(x) + firsts(
            d.changed,
        ).to_multiset().count(x) + firsts(k).to_multiset().count(x));
    }
    assert forall|x: MappingView| #[trigger] d.added.contains(x) implies b.contains(x) by {
        assert(d.added.to_multiset().count(x) > 0);
        assert(b.to_multiset().count(x) == d.added.to_multiset().count(x) + seconds(
            d.changed,
        ).to_multiset().count(x) + seconds(k).to_multiset().count(x));
    }
    assert forall|i: int| 0 <= i < d.changed.len() implies a.contains((#[trigger] d.changed[i]).0)
        && b.contains(d.changed[i].1) by {
        let x = d.changed[i].0;
        let y = d.changed[i].1;
        assert(firsts(d.changed)[i] == x);
        assert(seconds(d.changed)[i] == y);
        assert(firsts(d.changed).contains(x));
        assert(seconds(d.changed).contains(y));
        assert(firsts(d.changed).to_multiset().count(x) > 0);
        assert(seconds(d.changed).to_multiset().count(y) > 0);
        assert(a.to_multiset().count(x) == d.removed.to_multiset().count(x) + firsts(
            d.changed,
        ).to_multiset().count(x) + firsts(k).to_multiset().count(x));
        assert(b.to_multiset().count(y) == d.added.to_multiset().count(y) + seconds(
            d.changed,
        ).to_multiset().count(y) + seconds(k).to_multiset().count(y));
    }
}

proof fn lemma_sorted_counts_one(a: Seq<MappingView>)
    requires
        sorted_by_start(a),
    ensures
        forall|i: int| 0 <= i < a.len() ==> a.to_multiset().count(#[trigger] a[i]) == 1,
    decreases a.len(),
{
    broadcast use vstd::seq_lib::group_to_multiset_ensures, vstd::multiset::group_multiset_axioms;

    if a.len() > 0 {
        let tail = a.drop_first();
        lemma_sorted_tail(a);
        lemma_sorted_counts_one(tail);
        assert(a =~= seq![a[0]] + tail);
        lemma_multiset_cons(a[0], tail);
        assert(!tail.contains(a[0])) by {
            if tail.contains(a[0]) {
                let j = choose|j: int| 0 <= j < tail.len() && tail[j] == a[0];
                assert(tail[j].range.from > a[0].range.from);
            }
        }
        assert forall|i: int| 0 <= i < a.len() implies a.to_multiset().count(#[trigger] a[i]) == 1 by {
            if i > 0 {
                assert(a[i] == tail[i - 1]);
                assert(a[i].range.from > a[0].range.from);
            }
        }
    }
}

/// On snapshots ordered by start address, each mapping of the earlier snapshot `a` stands
/// exactly once among the removed ones, the earlier halves of changed pairs and the kept
/// ones; each mapping of the later snapshot `b` exactly once among the added ones, the later
/// halves of changed pairs and the kept ones. (Kept pairs share a start and agree on end,
/// total size and resident size: see `lemma_diff_complete`.)
pub proof fn lemma_diff_each_once(a: Seq<MappingView>, b: Seq<MappingView>)
    requires
        sorted_by_start(a),
        sorted_by_start(b),
    ensures
        forall|i: int|
            0 <= i < a.len() ==> diff_spec(a, b).removed.to_multiset().count(#[trigger] a[i])
                + firsts(diff_spec(a, b).changed).to_multiset().count(a[i]) + firsts(
                kept_spec(a, b),
            ).to_multiset().count(a[i]) == 1,
        forall|i: int|
            0 <= i < b.len() ==> diff_spec(a, b).added.to_multiset().count(#[trigger] b[i])
                + seconds(diff_spec(a, b).changed).to_multiset().count(b[i]) + seconds(
                kept_spec(a, b),
            ).to_multiset().count(b[i]) == 1,
{
    broadcast use vstd::multiset::group_multiset_axioms;

    lemma_diff_complete(a, b);
    lemma_sorted_counts_one(a);
    lemma_sorted_counts_one(b);
}

impl Diffs {
    pub fn new() -> (r: Diffs)
        ensures
            r@ == (DiffView { added: Seq::empty(), removed: Seq::empty(), changed: Seq::empty() }),
    {
        let r = Diffs { added: Vec::new(), removed: Vec::new(), changed: Vec::new() };
        assert(r@.added =~= Seq::empty());
        assert(r@.removed =~= Seq::empty());
        assert(r@.changed =~= Seq::empty());
        r
    }
}

/// Classifies the mappings of `vec1` (earlier) and `vec2` (later), both ordered by start
/// address, as added, removed or changed. On inputs that are not so ordered the result
/// is still `diff_spec` of them, which then means little.
pub fn diff_sorted(vec1: &[MemoryMap], vec2: &[MemoryMap]) -> (r: Diffs)
    ensures
        r@ == diff_spec(views(vec1@), views(vec2@)),
{
    let ghost a = views(vec1@);
    let ghost b = views(vec2@);
    let mut diffs = Diffs::new();
    let mut i: usize = 0;
    let mut j: usize = 0;
    assert(a.skip(0) =~= a);
    assert(b.skip(0) =~= b);
    assert(join(diffs@, diff_spec(a, b)) =~= diff_spec(a, b));

    while i < vec1.len() || j < vec2.len()
        invariant
            a == views(vec1@),
            b == views(vec2@),
            i <= vec1@.len(),
            j <= vec2@.len(),
            join(diffs@, diff_spec(a.skip(i as int), b.skip(j as int))) == diff_spec(a, b),
        decreases vec1@.len() + vec2@.len() - i - j,
    {
        let ghost d0 = diffs@;
        let ghost sa = a.skip(i as int);
        let ghost sb = b.skip(j as int);
        if j >= vec2.len() || (i < vec1.len() && vec1[i].starts_before(&vec2[j])) {
            assert(sa.len() > 0 && sa[0] == vec1@[i as int]@);
            assert(sa.drop_first() =~= a.skip(i + 1));
            diffs.removed.push(vec1[i].duplicate());
            assert(diffs@.removed =~= d0.removed.push(sa[0]));
            proof {
                if sb.len() == 0 {
                    assert(diff_spec(sa, sb).removed =~= seq![sa[0]] + diff_spec(sa.drop_first(), sb).removed);
                    assert(diff_spec(sa.drop_first(), sb).added =~= Seq::<MappingView>::empty());
                }
            }
            i = i + 1;
            proof {
                let rest = diff_spec(sa.drop_first(), sb);
                let whole = diff_spec(sa, sb);
                assert(whole.removed =~= seq![sa[0]] + rest.removed);
                assert(whole.added =~= rest.added);
                assert(whole.changed =~= rest.changed);
                assert(diffs@.removed + rest.removed =~= d0.removed + whole.removed);
            }
            assert(join(diffs@, diff_spec(a.skip(i as int), b.skip(j as int))) =~= diff_spec(a, b));
        } else if i >= vec1.len() || vec2[j].starts_before(&vec1[i]) {
            assert(sb.len() > 0 && sb[0] == vec2@[j as int]@);
            assert(sb.drop_first() =~= b.skip(j + 1));
            diffs.added.push(vec2[j].duplicate());
            assert(diffs@.added =~= d0.added.push(sb[0]));
            proof {
                if sa.len() == 0 {
                    assert(diff_spec(sa, sb).added =~= seq![sb[0]] + diff_spec(sa, sb.drop_first()).added);
                }
            }
            j = j + 1;
            proof {
                let rest = diff_spec(sa, sb.drop_first());
                let whole = diff_spec(sa, sb);
                assert(whole.added =~= seq![sb[0]] + rest.added);
                assert(whole.removed =~= rest.removed);
                assert(whole.changed =~= rest.changed);
                assert(diffs@.added + rest.added =~= d0.added + whole.added);
            }
            assert(join(diffs@, diff_spec(a.skip(i as int), b.skip(j as int))) =~= diff_spec(a, b));
        } else {
            assert(sa[0] == vec1@[i as int]@);
            assert(sb[0] == vec2@[j as int]@);
            assert(sa.drop_first() =~= a.skip(i + 1));
            assert(sb.drop_first() =~= b.skip(j + 1));
            if vec1[i].address_range.to != vec2[j].address_range.to || vec1[i].size()
                != vec2[j].size() || vec1[i].rss() != vec2[j].rss() {
                diffs.changed.push((vec1[i].duplicate(), vec2[j].duplicate()));
                assert(diffs@.changed =~= d0.changed.push((sa[0], sb[0])));
            }
            i = i + 1;
            j = j + 1;
            proof {
                let rest = diff_spec(sa.drop_first(), sb.drop_first());
                let whole = diff_spec(sa, sb);
                if sa[0].differs(sb[0]) {
                    assert(whole.changed =~= seq![(sa[0], sb[0])] + rest.changed);
                    assert(diffs@.changed + rest.changed =~= d0.changed + whole.changed);
                } else {
                    assert(diffs@ == d0);
                }
            }
            assert(join(diffs@, diff_spec(a.skip(i as int), b.skip(j as int))) =~= diff_spec(a, b));
        }
    }
    assert(a.skip(i as int) =~= Seq::<MappingView>::empty());
    assert(b.skip(j as int) =~= Seq::<MappingView>::empty());
    assert(diffs@ =~= join(diffs@, diff_spec(a.skip(i as int), b.skip(j as int))));
    diffs
}

} // verus!
