use crate::similarity::{jaccard_result, Ratio, SimilarityError};
use crate::store::{
    batch_cooccurrence, batch_entries, contribution, diff_total, item_total, lemma_pair_total_bound,
    pair_delta_total, pair_total, unit_deltas, BatchError, Change, CountDiff, Interaction,
    InteractionStore, PairDelta, MAX_LOG,
};
use vstd::prelude::*;

verus! {

/// Cooccurrence count of `(a, b)`: the sum over users of the product of their
/// multiplicities of `a` and `b`, accumulated delta by delta, each delta times
/// the user's multiplicity of the other item before it.
pub open spec fn cooccurrence(s: Seq<Interaction>, a: u32, b: u32) -> int
    decreases s.len(),
{
    if s.len() == 0 {
        0
    } else {
        cooccurrence(s.drop_last(), a, b) + contribution(s.drop_last(), s.last(), a, b)
    }
}

pub proof fn lemma_cooccurrence_concat(s: Seq<Interaction>, e: Seq<Interaction>, a: u32, b: u32)
    ensures
        cooccurrence(s + e, a, b) == cooccurrence(s, a, b) + batch_cooccurrence(s, e, a, b),
    decreases e.len(),
{
    if e.len() == 0 {
        assert(s + e =~= s);
    } else {
        assert((s + e).drop_last() =~= s + e.drop_last());
        assert((s + e).last() == e.last());
        lemma_cooccurrence_concat(s, e.drop_last(), a, b);
    }
}

/// Only canonical keys, larger item first, ever have a non-zero count.
pub proof fn lemma_cooccurrence_canonical(s: Seq<Interaction>, a: u32, b: u32)
    requires
        a <= b,
    ensures
        cooccurrence(s, a, b) == 0,
    decreases s.len(),
{
    if s.len() > 0 {
        lemma_cooccurrence_canonical(s.drop_last(), a, b);
    }
}

pub proof fn lemma_cooccurrence_bound(s: Seq<Interaction>, a: u32, b: u32)
    requires
        unit_deltas(s),
    ensures
        -(s.len() * s.len()) <= cooccurrence(s, a, b) <= s.len() * s.len(),
    decreases s.len(),
{
    if s.len() > 0 {
        let t = s.drop_last();
        let n = t.len() as int;
        assert(unit_deltas(t)) by {
            assert forall|i: int| 0 <= i < t.len() implies (#[trigger] t[i]).delta == 1
                || t[i].delta == -1 by {
                assert(t[i] == s[i]);
            }
        }
        assert(s.last() == s[s.len() - 1]);
        lemma_cooccurrence_bound(t, a, b);
        lemma_pair_total_bound(t, s.last().user, a);
        lemma_pair_total_bound(t, s.last().user, b);
        let x = s.last();
        let c = contribution(t, x, a, b);
        assert(x.delta == 1 || x.delta == -1);
        let pa = pair_total(t, x.user, a);
        let pb = pair_total(t, x.user, b);
        let d = x.delta as int;
        assert(-n <= d * pa <= n && -n <= d * pb <= n) by (nonlinear_arith)
            requires
                d == 1 || d == -1,
                -n <= pa <= n,
                -n <= pb <= n,
        ;
        if a > b && x.item == a {
            assert(c == d * pb);
        } else if a > b && x.item == b {
            assert(c == d * pa);
        } else {
            assert(c == 0);
        }
        assert(-n <= c <= n);
        assert(n * n + n <= (n + 1) * (n + 1)) by (nonlinear_arith)
            requires
                n >= 0,
        ;
        assert(s.len() == n + 1);
    }
}

pub proof fn lemma_pair_delta_total_bound(d: Seq<PairDelta>, a: u32, b: u32)
    requires
        forall|k: int| 0 <= k < d.len() ==> -1 <= (#[trigger] d[k]).delta <= 1,
    ensures
        -(d.len() as int) <= pair_delta_total(d, a, b) <= d.len(),
    decreases d.len(),
{
    if d.len() > 0 {
        assert(d.last() == d[d.len() - 1]);
        lemma_pair_delta_total_bound(d.drop_last(), a, b);
    }
}

pub proof fn lemma_diff_total_listed(d: Seq<CountDiff>, x: u32)
    requires
        diff_total(d, x) != 0,
    ensures
        exists|k: int| 0 <= k < d.len() && (#[trigger] d[k]).item == x,
    decreases d.len(),
{
    if d.last().item == x {
        assert(d[d.len() - 1].item == x);
    } else {
        lemma_diff_total_listed(d.drop_last(), x);
        let k = choose|k: int| 0 <= k < d.drop_last().len() && (#[trigger] d.drop_last()[k]).item == x;
        assert(d[k] == d.drop_last()[k]);
    }
}

/// Whether the count of `x` differs between two logs.
pub open spec fn item_changed(before: Seq<Interaction>, after: Seq<Interaction>, x: u32) -> bool {
    item_total(after, x) != item_total(before, x)
}

/// Whether the similarity of `(a, b)` has to be emitted again after a batch:
/// the pair cooccurs and its count or the count of either item changed.
pub open spec fn similarity_due(before: Seq<Interaction>, after: Seq<Interaction>, a: u32, b: u32) -> bool {
    &&& cooccurrence(after, a, b) != 0
    &&& (cooccurrence(after, a, b) != cooccurrence(before, a, b) || item_changed(before, after, a)
        || item_changed(before, after, b))
}

fn find_pair(t: &Vec<PairTotal>, a: u32, b: u32) -> (r: usize)
    ensures
        r <= t@.len(),
        r < t@.len() ==> t@[r as int].item_a == a && t@[r as int].item_b == b,
        r == t@.len() ==> forall|k: int|
            0 <= k < t@.len() ==> !((#[trigger] t@[k]).item_a == a && t@[k].item_b == b),
{
    let mut j: usize = 0;
    while j < t.len()
        invariant
            j <= t@.len(),
            forall|k: int| 0 <= k < j ==> !((#[trigger] t@[k]).item_a == a && t@[k].item_b == b),
        decreases t.len() - j,
    {
        if t[j].item_a == a && t[j].item_b == b {
            return j;
        }
        j = j + 1;
    }
    j
}

fn count_listed(c: &Vec<ItemCount>, x: u32) -> (r: bool)
    ensures
        r <==> exists|k: int| 0 <= k < c@.len() && (#[trigger] c@[k]).item == x,
{
    let mut j: usize = 0;
    while j < c.len()
        invariant
            j <= c@.len(),
            forall|k: int| 0 <= k < j ==> (#[trigger] c@[k]).item != x,
        decreases c.len() - j,
    {
        if c[j].item == x {
            return true;
        }
        j = j + 1;
    }
    false
}

/// Adds each pair contribution to the running totals, appending a total for
/// a pair seen for the first time.
fn add_pair_deltas(totals: &mut Vec<PairTotal>, joined: &Vec<PairDelta>, Ghost(base): Ghost<
    Seq<Interaction>,
>)
    requires
        totals_match(old(totals)@, base),
        unit_deltas(base),
        base.len() <= MAX_LOG,
        forall|k: int|
            0 <= k < joined@.len() ==> (#[trigger] joined@[k]).item_a > joined@[k].item_b && -1
                <= joined@[k].delta <= 1,
    ensures
        final(totals)@.len() >= old(totals)@.len(),
        forall|j: int| 0 <= j < old(totals)@.len() ==> same_key(#[trigger] final(totals)@[j], old(totals)@[j]),
        forall|j: int, k: int|
            0 <= j < k < final(totals)@.len() ==> !same_key(#[trigger] final(totals)@[j], #[trigger] final(totals)@[k]),
        forall|j: int| 0 <= j < final(totals)@.len() ==> (#[trigger] final(totals)@[j]).item_a > final(totals)@[j].item_b,
        forall|j: int|
            0 <= j < final(totals)@.len() ==> (#[trigger] final(totals)@[j]).total == cooccurrence(
                base,
                final(totals)@[j].item_a,
                final(totals)@[j].item_b,
            ) + pair_delta_total(joined@, final(totals)@[j].item_a, final(totals)@[j].item_b),
        forall|a: u32, b: u32|
            cooccurrence(base, a, b) + #[trigger] pair_delta_total(joined@, a, b) != 0 ==> exists|j: int|
                0 <= j < final(totals)@.len() && (#[trigger] final(totals)@[j]).item_a == a && final(totals)@[j].item_b == b,
{
    let ghost start = totals@;
    let mut i: usize = 0;
    while i < joined.len()
        invariant
            i <= joined@.len(),
            unit_deltas(base),
            base.len() <= MAX_LOG,
            start == old(totals)@,
            totals_match(start, base),
            forall|k: int|
                0 <= k < joined@.len() ==> (#[trigger] joined@[k]).item_a > joined@[k].item_b && -1
                    <= joined@[k].delta <= 1,
            totals@.len() >= start.len(),
            forall|j: int| 0 <= j < start.len() ==> same_key(#[trigger] totals@[j], start[j]),
            forall|j: int, k: int|
                0 <= j < k < totals@.len() ==> !same_key(#[trigger] totals@[j], #[trigger] totals@[k]),
            forall|j: int| 0 <= j < totals@.len() ==> (#[trigger] totals@[j]).item_a > totals@[j].item_b,
            forall|j: int|
                0 <= j < totals@.len() ==> (#[trigger] totals@[j]).total == cooccurrence(
                    base,
                    totals@[j].item_a,
                    totals@[j].item_b,
                ) + pair_delta_total(joined@.take(i as int), totals@[j].item_a, totals@[j].item_b),
            forall|a: u32, b: u32|
                cooccurrence(base, a, b) + #[trigger] pair_delta_total(joined@.take(i as int), a, b) != 0
                    ==> exists|j: int|
                    0 <= j < totals@.len() && (#[trigger] totals@[j]).item_a == a && totals@[j].item_b == b,
        decreases joined.len() - i,
    {
        let d = joined[i];
        let ghost prev = totals@;
        let ghost t0 = joined@.take(i as int);
        let ghost t1 = joined@.take(i as int + 1);
        proof {
            assert(t1.drop_last() =~= t0);
            assert(t1.last() == d);
            assert(forall|a: u32, b: u32|
                #[trigger] pair_delta_total(t1, a, b) == pair_delta_total(t0, a, b) + if d.item_a == a
                    && d.item_b == b {
                    d.delta as int
                } else {
                    0
                });
            assert forall|k: int| 0 <= k < t0.len() implies -1 <= (#[trigger] t0[k]).delta <= 1 by {
                assert(t0[k] == joined@[k]);
            }
            lemma_pair_delta_total_bound(t0, d.item_a, d.item_b);
            lemma_cooccurrence_bound(base, d.item_a, d.item_b);
            let n = base.len() as int;
            assert(n * n <= MAX_LOG * MAX_LOG) by (nonlinear_arith)
                requires
                    0 <= n <= MAX_LOG,
            ;
        }
        let pos = find_pair(totals, d.item_a, d.item_b);
        if pos < totals.len() {
            let x = PairTotal { item_a: d.item_a, item_b: d.item_b, total: totals[pos].total + d.delta as i128 };
            totals.set(pos, x);
            proof {
                assert forall|j: int| 0 <= j < totals@.len() implies (#[trigger] totals@[j]).total
                    == cooccurrence(base, totals@[j].item_a, totals@[j].item_b) + pair_delta_total(
                    t1,
                    totals@[j].item_a,
                    totals@[j].item_b,
                ) by {
                    if j != pos {
                        assert(totals@[j] == prev[j]);
                        assert(!same_key(prev[j], prev[pos as int]));
                    }
                }
                assert forall|j: int, k: int|
                    0 <= j < k < totals@.len() implies !same_key(#[trigger] totals@[j], #[trigger] totals@[k]) by {
                    assert(same_key(totals@[j], prev[j]));
                    assert(same_key(totals@[k], prev[k]));
                }
                assert forall|j: int| 0 <= j < start.len() implies same_key(#[trigger] totals@[j], start[j]) by {
                    assert(same_key(totals@[j], prev[j]));
                }
                assert forall|j: int| 0 <= j < totals@.len() implies (#[trigger] totals@[j]).item_a > totals@[j].item_b by {
                    assert(same_key(totals@[j], prev[j]));
                }
                assert forall|a: u32, b: u32|
                    cooccurrence(base, a, b) + #[trigger] pair_delta_total(t1, a, b) != 0 implies exists|j: int|
                        0 <= j < totals@.len() && (#[trigger] totals@[j]).item_a == a && totals@[j].item_b == b by {
                    if d.item_a == a && d.item_b == b {
                        assert(totals@[pos as int].item_a == a);
                    } else {
                        let j = choose|j: int| 0 <= j < prev.len() && (#[trigger] prev[j]).item_a == a && prev[j].item_b == b;
                        assert(same_key(totals@[j], prev[j]));
                    }
                }
            }
        } else {
            let x = PairTotal { item_a: d.item_a, item_b: d.item_b, total: d.delta as i128 };
            totals.push(x);
            proof {
                assert(cooccurrence(base, d.item_a, d.item_b) + pair_delta_total(t0, d.item_a, d.item_b) == 0);
                assert forall|j: int| 0 <= j < totals@.len() implies (#[trigger] totals@[j]).total
                    == cooccurrence(base, totals@[j].item_a, totals@[j].item_b) + pair_delta_total(
                    t1,
                    totals@[j].item_a,
                    totals@[j].item_b,
                ) by {
                    if j < prev.len() {
                        assert(totals@[j] == prev[j]);
                    }
                }
                assert forall|j: int, k: int|
                    0 <= j < k < totals@.len() implies !same_key(#[trigger] totals@[j], #[trigger] totals@[k]) by {
                    assert(totals@[j] == prev[j]);
                    if k < prev.len() {
                        assert(totals@[k] == prev[k]);
                    }
                }
                assert forall|j: int| 0 <= j < start.len() implies same_key(#[trigger] totals@[j], start[j]) by {
                    assert(totals@[j] == prev[j]);
                }
                assert forall|j: int| 0 <= j < totals@.len() implies (#[trigger] totals@[j]).item_a > totals@[j].item_b by {
                    if j < prev.len() {
                        assert(totals@[j] == prev[j]);
                    }
                }
                assert forall|a: u32, b: u32|
                    cooccurrence(base, a, b) + #[trigger] pair_delta_total(t1, a, b) != 0 implies exists|j: int|
                        0 <= j < totals@.len() && (#[trigger] totals@[j]).item_a == a && totals@[j].item_b == b by {
                    if d.item_a == a && d.item_b == b {
                        assert(totals@[prev.len() as int].item_a == a);
                    } else {
                        let j = choose|j: int| 0 <= j < prev.len() && (#[trigger] prev[j]).item_a == a && prev[j].item_b == b;
                        assert(totals@[j] == prev[j]);
                    }
                }
            }
        }
        i = i + 1;
    }
    assert(joined@.take(i as int) =~= joined@);
}

/// The running cooccurrence count of one canonical pair.
#[derive(Clone, Copy, Debug, PartialEq, Eq)]
pub struct PairTotal {
    pub item_a: u32,
    pub item_b: u32,
    pub total: i128,
}

/// New count of an item whose count changed in a batch.
#[derive(Clone, Copy, Debug, PartialEq, Eq)]
pub struct ItemCount {
    pub item: u32,
    pub count: i64,
    pub change: i64,
    pub time: u64,
}

/// New cooccurrence count of a pair whose count changed in a batch.
#[derive(Clone, Copy, Debug, PartialEq, Eq)]
pub struct PairCount {
    pub item_a: u32,
    pub item_b: u32,
    pub count: i128,
    pub change: i128,
    pub time: u64,
}

/// A recomputed similarity, or why it could not be computed.
#[derive(Clone, Copy, Debug, PartialEq, Eq)]
pub struct PairSimilarity {
    pub item_a: u32,
    pub item_b: u32,
    pub similarity: Result<Ratio, SimilarityError>,
    pub time: u64,
}

/// An interaction touched by a batch whose multiplicity is now negative.
#[derive(Clone, Copy, Debug, PartialEq, Eq)]
pub struct NegativeMultiplicity {
    pub user: u32,
    pub item: u32,
    pub multiplicity: i64,
    pub time: u64,
}

/// Everything one batch changed, view by view.
#[derive(Debug)]
pub struct BatchOutput {
    pub counts: Vec<ItemCount>,
    pub cooccurrences: Vec<PairCount>,
    pub similarities: Vec<PairSimilarity>,
    pub negative: Vec<NegativeMultiplicity>,
}

/// The interaction store together with the running cooccurrence counts
/// derived from it.
pub struct Engine {
    pub store: InteractionStore,
    pub cooccurrences: Vec<PairTotal>,
}

pub open spec fn same_key(p: PairTotal, q: PairTotal) -> bool {
    p.item_a == q.item_a && p.item_b == q.item_b
}

pub open spec fn totals_match(t: Seq<PairTotal>, log: Seq<Interaction>) -> bool {
    &&& forall|j: int, k: int| 0 <= j < k < t.len() ==> !same_key(#[trigger] t[j], #[trigger] t[k])
    &&& forall|j: int| 0 <= j < t.len() ==> (#[trigger] t[j]).item_a > t[j].item_b
    &&& forall|j: int|
        0 <= j < t.len() ==> (#[trigger] t[j]).total == cooccurrence(log, t[j].item_a, t[j].item_b)
    &&& forall|a: u32, b: u32|
        #[trigger] cooccurrence(log, a, b) != 0 ==> exists|j: int|
            0 <= j < t.len() && (#[trigger] t[j]).item_a == a && t[j].item_b == b
}

impl Engine {
    pub open spec fn wf(&self) -> bool {
        &&& self.store.wf()
        &&& totals_match(self.cooccurrences@, self.store.log@)
    }

    pub fn new() -> (r: Engine)
        ensures
            r.wf(),
            r.store.log@.len() == 0,
            r.store.time == 0,
            r.cooccurrences@.len() == 0,
    {
        Engine { store: InteractionStore::new(), cooccurrences: Vec::new() }
    }

    /// The stored count of `(a, b)`, zero when none is stored.
    pub fn cooccurrence_count(&self, a: u32, b: u32) -> (r: i128)
        requires
            self.wf(),
        ensures
            r == cooccurrence(self.store.log@, a, b),
    {
        let mut j: usize = 0;
        while j < self.cooccurrences.len()
            invariant
                self.wf(),
                j <= self.cooccurrences@.len(),
                forall|k: int|
                    0 <= k < j ==> !((#[trigger] self.cooccurrences@[k]).item_a == a
                        && self.cooccurrences@[k].item_b == b),
            decreases self.cooccurrences.len() - j,
        {
            if self.cooccurrences[j].item_a == a && self.cooccurrences[j].item_b == b {
                return self.cooccurrences[j].total;
            }
            j = j + 1;
        }
        0
    }
}

} // verus!
