use crate::similarity::{jaccard, jaccard_result, Ratio, SimilarityError};
use vstd::prelude::*;

verus! {

/// Most interaction deltas a store will hold; keeps every running total
/// within `i64`.
pub const MAX_LOG: usize = 1_000_000_000;

/// One signed change to the multiplicity of a (user, item) pair, recorded at a
/// logical time.
#[derive(Clone, Copy, Debug, PartialEq, Eq)]
pub struct Interaction {
    pub user: u32,
    pub item: u32,
    pub delta: i64,
    pub time: u64,
}

/// Whether a batch adds or removes its interactions.
#[derive(Clone, Copy, Debug, PartialEq, Eq)]
pub enum Change {
    Add,
    Remove,
}

/// A change to the interaction count of one item at one logical time.
#[derive(Clone, Copy, Debug, PartialEq, Eq)]
pub struct CountDiff {
    pub item: u32,
    pub delta: i64,
    pub time: u64,
}

/// A contribution to the cooccurrence count of the pair `(item_a, item_b)`.
#[derive(Clone, Copy, Debug, PartialEq, Eq)]
pub struct PairDelta {
    pub item_a: u32,
    pub item_b: u32,
    pub delta: i64,
}

/// Why a batch was refused; a refused batch changes nothing.
#[derive(Clone, Copy, Debug, PartialEq, Eq)]
pub enum BatchError {
    /// The store cannot take this many more deltas.
    Capacity,
    /// The logical clock cannot advance further.
    ClockExhausted,
}

pub open spec fn sign_of(c: Change) -> int {
    match c {
        Change::Add => 1,
        Change::Remove => -1,
    }
}

/// Sum of the deltas recorded for `item`.
pub open spec fn item_total(s: Seq<Interaction>, item: u32) -> int
    decreases s.len(),
{
    if s.len() == 0 {
        0
    } else {
        item_total(s.drop_last(), item) + if s.last().item == item {
            s.last().delta as int
        } else {
            0
        }
    }
}

/// Multiplicity of the pair `(user, item)`: the sum of its deltas.
pub open spec fn pair_total(s: Seq<Interaction>, user: u32, item: u32) -> int
    decreases s.len(),
{
    if s.len() == 0 {
        0
    } else {
        pair_total(s.drop_last(), user, item) + if s.last().user == user && s.last().item
            == item {
            s.last().delta as int
        } else {
            0
        }
    }
}

/// Sum of the count diffs for `item`.
pub open spec fn diff_total(d: Seq<CountDiff>, item: u32) -> int
    decreases d.len(),
{
    if d.len() == 0 {
        0
    } else {
        diff_total(d.drop_last(), item) + if d.last().item == item {
            d.last().delta as int
        } else {
            0
        }
    }
}

/// Sum of the deltas that a sequence of pair contributions gives `(a, b)`.
pub open spec fn pair_delta_total(d: Seq<PairDelta>, a: u32, b: u32) -> int
    decreases d.len(),
{
    if d.len() == 0 {
        0
    } else {
        pair_delta_total(d.drop_last(), a, b) + if d.last().item_a == a && d.last().item_b == b {
            d.last().delta as int
        } else {
            0
        }
    }
}

pub open spec fn unit_deltas(s: Seq<Interaction>) -> bool {
    forall|i: int| 0 <= i < s.len() ==> (#[trigger] s[i]).delta == 1 || s[i].delta == -1
}

/// The entries that a batch appends to a log.
pub open spec fn batch_entries(pairs: Seq<(u32, u32)>, c: Change, t: u64) -> Seq<Interaction> {
    Seq::new(
        pairs.len(),
        |i: int| Interaction { user: pairs[i].0, item: pairs[i].1, delta: sign_of(c) as i64, time: t },
    )
}

pub proof fn lemma_item_total_bound(s: Seq<Interaction>, item: u32)
    requires
        unit_deltas(s),
    ensures
        -(s.len() as int) <= item_total(s, item) <= s.len(),
    decreases s.len(),
{
    if s.len() > 0 {
        assert(s.last() == s[s.len() - 1]);
        lemma_item_total_bound(s.drop_last(), item);
    }
}

pub proof fn lemma_pair_total_bound(s: Seq<Interaction>, user: u32, item: u32)
    requires
        unit_deltas(s),
    ensures
        -(s.len() as int) <= pair_total(s, user, item) <= s.len(),
    decreases s.len(),
{
    if s.len() > 0 {
        assert(s.last() == s[s.len() - 1]);
        lemma_pair_total_bound(s.drop_last(), user, item);
    }
}

/// Totals do not depend on the order in which two deltas were recorded, nor on
/// whether they came in one batch or two.
pub proof fn lemma_order_independent(s: Seq<Interaction>, x: Interaction, y: Interaction)
    ensures
        forall|item: u32|
            item_total(s.push(x).push(y), item) == #[trigger] item_total(s.push(y).push(x), item),
        forall|user: u32, item: u32|
            pair_total(s.push(x).push(y), user, item) == #[trigger] pair_total(
                s.push(y).push(x),
                user,
                item,
            ),
{
    assert(s.push(x).push(y).drop_last() =~= s.push(x));
    assert(s.push(x).drop_last() =~= s);
    assert(s.push(y).push(x).drop_last() =~= s.push(y));
    assert(s.push(y).drop_last() =~= s);
    assert forall|item: u32|
        item_total(s.push(x).push(y), item) == #[trigger] item_total(s.push(y).push(x), item) by {
        assert(item_total(s.push(x), item) == item_total(s, item) + if x.item == item {
            x.delta as int
        } else {
            0
        });
        assert(item_total(s.push(y), item) == item_total(s, item) + if y.item == item {
            y.delta as int
        } else {
            0
        });
    }
    assert forall|user: u32, item: u32|
        pair_total(s.push(x).push(y), user, item) == #[trigger] pair_total(
            s.push(y).push(x),
            user,
            item,
        ) by {
        assert(pair_total(s.push(x), user, item) == pair_total(s, user, item) + if x.user == user
            && x.item == item {
            x.delta as int
        } else {
            0
        });
        assert(pair_total(s.push(y), user, item) == pair_total(s, user, item) + if y.user == user
            && y.item == item {
            y.delta as int
        } else {
            0
        });
    }
}

proof fn lemma_pair_delta_total_update(s: Seq<PairDelta>, j: int, x: PairDelta, a: u32, b: u32)
    requires
        0 <= j < s.len(),
        x.item_a == s[j].item_a,
        x.item_b == s[j].item_b,
    ensures
        pair_delta_total(s.update(j, x), a, b) == pair_delta_total(s, a, b) + if x.item_a == a
            && x.item_b == b {
            x.delta - s[j].delta
        } else {
            0
        },
    decreases s.len(),
{
    if j < s.len() - 1 {
        assert(s.update(j, x).drop_last() =~= s.drop_last().update(j, x));
        lemma_pair_delta_total_update(s.drop_last(), j, x, a, b);
    } else {
        assert(s.update(j, x).drop_last() =~= s.drop_last());
    }
}

/// Whether no two entries share a key and none is zero.
pub open spec fn consolidated(s: Seq<PairDelta>) -> bool {
    &&& forall|j: int, k: int|
        0 <= j < k < s.len() ==> !(#[trigger] s[j].item_a == #[trigger] s[k].item_a && s[j].item_b
            == s[k].item_b)
    &&& forall|j: int| 0 <= j < s.len() ==> (#[trigger] s[j]).delta != 0
}

/// Sums the contributions that share a key and drops those that net to zero.
pub fn consolidate(deltas: &Vec<PairDelta>) -> (r: Vec<PairDelta>)
    requires
        deltas@.len() <= MAX_LOG,
        forall|k: int| 0 <= k < deltas@.len() ==> -1 <= (#[trigger] deltas@[k]).delta <= 1,
    ensures
        consolidated(r@),
        forall|a: u32, b: u32| #[trigger] pair_delta_total(r@, a, b) == pair_delta_total(deltas@, a, b),
{
    let mut sums: Vec<PairDelta> = Vec::new();
    let mut i: usize = 0;
    while i < deltas.len()
        invariant
            i <= deltas@.len(),
            deltas@.len() <= MAX_LOG,
            forall|k: int| 0 <= k < deltas@.len() ==> -1 <= (#[trigger] deltas@[k]).delta <= 1,
            forall|j: int, k: int|
                0 <= j < k < sums@.len() ==> !(#[trigger] sums@[j].item_a == #[trigger] sums@[k].item_a
                    && sums@[j].item_b == sums@[k].item_b),
            forall|j: int| 0 <= j < sums@.len() ==> -(i as int) <= (#[trigger] sums@[j]).delta <= i,
            forall|a: u32, b: u32|
                #[trigger] pair_delta_total(sums@, a, b) == pair_delta_total(
                    deltas@.take(i as int),
                    a,
                    b,
                ),
        decreases deltas.len() - i,
    {
        let d = deltas[i];
        let ghost prev = sums@;
        proof {
            assert(deltas@.take(i as int + 1).drop_last() =~= deltas@.take(i as int));
            assert(deltas@.take(i as int + 1).last() == d);
        }
        let mut pos: usize = sums.len();
        let mut j: usize = 0;
        while j < sums.len()
            invariant
                sums@ == prev,
                j <= sums@.len(),
                pos <= sums@.len(),
                pos < sums@.len() ==> sums@[pos as int].item_a == d.item_a && sums@[pos as int].item_b
                    == d.item_b,
                pos == sums@.len() ==> forall|k: int|
                    0 <= k < j ==> !((#[trigger] sums@[k]).item_a == d.item_a && sums@[k].item_b
                        == d.item_b),
            decreases sums.len() - j,
        {
            if sums[j].item_a == d.item_a && sums[j].item_b == d.item_b {
                pos = j;
            }
            j = j + 1;
        }
        let j = pos;
        if j < sums.len() {
            let x = PairDelta { item_a: d.item_a, item_b: d.item_b, delta: sums[j].delta + d.delta };
            sums.set(j, x);
            proof {
                assert forall|a: u32, b: u32|
                    #[trigger] pair_delta_total(sums@, a, b) == pair_delta_total(
                        deltas@.take(i as int + 1),
                        a,
                        b,
                    ) by {
                    lemma_pair_delta_total_update(prev, j as int, x, a, b);
                }
                assert forall|j2: int, k: int|
                    0 <= j2 < k < sums@.len() implies !(#[trigger] sums@[j2].item_a
                    == #[trigger] sums@[k].item_a && sums@[j2].item_b == sums@[k].item_b) by {
                    assert(prev[j2].item_a == sums@[j2].item_a && prev[j2].item_b == sums@[j2].item_b);
                    assert(prev[k].item_a == sums@[k].item_a && prev[k].item_b == sums@[k].item_b);
                }
                assert forall|j2: int| 0 <= j2 < sums@.len() implies -(i as int + 1) <= (
                #[trigger] sums@[j2]).delta <= i + 1 by {
                    if j2 != j {
                        assert(sums@[j2] == prev[j2]);
                    }
                }
            }
        } else {
            sums.push(d);
            proof {
                assert(sums@.drop_last() =~= prev);
                assert forall|a: u32, b: u32|
                    #[trigger] pair_delta_total(sums@, a, b) == pair_delta_total(
                        deltas@.take(i as int + 1),
                        a,
                        b,
                    ) by {
                    assert(pair_delta_total(prev, a, b) == pair_delta_total(
                        deltas@.take(i as int),
                        a,
                        b,
                    ));
                }
                assert forall|j2: int, k: int|
                    0 <= j2 < k < sums@.len() implies !(#[trigger] sums@[j2].item_a
                    == #[trigger] sums@[k].item_a && sums@[j2].item_b == sums@[k].item_b) by {
                    assert(sums@[j2] == prev[j2]);
                    if k < prev.len() {
                        assert(sums@[k] == prev[k]);
                    }
                }
                assert forall|j2: int| 0 <= j2 < sums@.len() implies -(i as int + 1) <= (
                #[trigger] sums@[j2]).delta <= i + 1 by {
                    if j2 < prev.len() {
                        assert(sums@[j2] == prev[j2]);
                    }
                }
            }
        }
        i = i + 1;
    }
    assert(deltas@.take(i as int) =~= deltas@);
    let mut out: Vec<PairDelta> = Vec::new();
    let mut k: usize = 0;
    while k < sums.len()
        invariant
            k <= sums@.len(),
            forall|j: int, k2: int|
                0 <= j < k2 < sums@.len() ==> !(#[trigger] sums@[j].item_a == #[trigger] sums@[k2].item_a
                    && sums@[j].item_b == sums@[k2].item_b),
            forall|m: int|
                0 <= m < out@.len() ==> exists|n: int|
                    0 <= n < k && #[trigger] out@[m] == #[trigger] sums@[n],
            forall|j: int, k2: int|
                0 <= j < k2 < out@.len() ==> !(#[trigger] out@[j].item_a == #[trigger] out@[k2].item_a
                    && out@[j].item_b == out@[k2].item_b),
            forall|j: int| 0 <= j < out@.len() ==> (#[trigger] out@[j]).delta != 0,
            forall|a: u32, b: u32|
                #[trigger] pair_delta_total(out@, a, b) == pair_delta_total(sums@.take(k as int), a, b),
        decreases sums.len() - k,
    {
        let e = sums[k];
        let ghost prev = out@;
        proof {
            assert(sums@.take(k as int + 1).drop_last() =~= sums@.take(k as int));
            assert(sums@.take(k as int + 1).last() == e);
        }
        proof {
            assert forall|a: u32, b: u32|
                #[trigger] pair_delta_total(sums@.take(k as int + 1), a, b) == pair_delta_total(
                    sums@.take(k as int),
                    a,
                    b,
                ) + if e.item_a == a && e.item_b == b {
                    e.delta as int
                } else {
                    0
                } by {}
        }
        if e.delta != 0 {
            out.push(e);
            proof {
                assert(out@.drop_last() =~= prev);
                assert(out@[out@.len() - 1] == sums@[k as int]);
                assert forall|m: int| 0 <= m < out@.len() implies exists|n: int|
                    0 <= n < k + 1 && #[trigger] out@[m] == #[trigger] sums@[n] by {
                    if m < prev.len() {
                        assert(out@[m] == prev[m]);
                    }
                }
                assert forall|j: int, k2: int|
                    0 <= j < k2 < out@.len() implies !(#[trigger] out@[j].item_a
                    == #[trigger] out@[k2].item_a && out@[j].item_b == out@[k2].item_b) by {
                    if k2 == out@.len() - 1 {
                        assert(out@[j] == prev[j]);
                        let n = choose|n: int| 0 <= n < k && #[trigger] prev[j] == #[trigger] sums@[n];
                        assert(n < k);
                    }
                }
                assert forall|a: u32, b: u32|
                    #[trigger] pair_delta_total(out@, a, b) == pair_delta_total(
                        sums@.take(k as int + 1),
                        a,
                        b,
                    ) by {
                    assert(pair_delta_total(prev, a, b) == pair_delta_total(
                        sums@.take(k as int),
                        a,
                        b,
                    ));
                }
            }
        } else {
            proof {
                assert forall|a: u32, b: u32|
                    #[trigger] pair_delta_total(out@, a, b) == pair_delta_total(
                        sums@.take(k as int + 1),
                        a,
                        b,
                    ) by {
                    assert(pair_delta_total(prev, a, b) == pair_delta_total(
                        sums@.take(k as int),
                        a,
                        b,
                    ));
                }
            }
        }
        k = k + 1;
    }
    assert(sums@.take(k as int) =~= sums@);
    out
}

/// Sum of the count diffs for `item` over a sequence of batches.
pub open spec fn diffs_over_batches(ds: Seq<Seq<CountDiff>>, item: u32) -> int
    decreases ds.len(),
{
    if ds.len() == 0 {
        0
    } else {
        diffs_over_batches(ds.drop_last(), item) + diff_total(ds.last(), item)
    }
}

/// Starting from an empty store, where each batch moves the count of `item`
/// by the sum of the diffs it returned (as `apply_batch` ensures), the diffs
/// of all batches together sum to the final count.
pub proof fn lemma_count_diffs_sum_to_total(
    logs: Seq<Seq<Interaction>>,
    ds: Seq<Seq<CountDiff>>,
    item: u32,
)
    requires
        logs.len() == ds.len() + 1,
        logs[0].len() == 0,
        forall|k: int|
            0 <= k < ds.len() ==> #[trigger] item_total(logs[k + 1], item) == item_total(
                logs[k],
                item,
            ) + diff_total(ds[k], item),
    ensures
        item_total(logs.last(), item) == diffs_over_batches(ds, item),
    decreases ds.len(),
{
    if ds.len() == 0 {
        assert(logs.last() == logs[0]);
    } else {
        let n = ds.len() - 1;
        lemma_count_diffs_sum_to_total(logs.drop_last(), ds.drop_last(), item);
        assert(logs.drop_last().last() == logs[n]);
        assert(item_total(logs[n + 1], item) == item_total(logs[n], item) + diff_total(ds[n], item));
        assert(ds.last() == ds[n]);
    }
}

/// What recording `x` after the log `s` contributes to the cooccurrence count
/// of `(a, b)`: its delta times the user's multiplicity of the other item.
pub open spec fn contribution(s: Seq<Interaction>, x: Interaction, a: u32, b: u32) -> int {
    if a <= b {
        0
    } else if x.item == a {
        x.delta * pair_total(s, x.user, b)
    } else if x.item == b {
        x.delta * pair_total(s, x.user, a)
    } else {
        0
    }
}

/// The cooccurrence change of `(a, b)` that appending `e` to `s` makes, each
/// entry joined against everything recorded before it.
pub open spec fn batch_cooccurrence(s: Seq<Interaction>, e: Seq<Interaction>, a: u32, b: u32) -> int
    decreases e.len(),
{
    if e.len() == 0 {
        0
    } else {
        batch_cooccurrence(s, e.drop_last(), a, b) + contribution(s + e.drop_last(), e.last(), a, b)
    }
}

pub proof fn lemma_pair_delta_total_concat(s: Seq<PairDelta>, t: Seq<PairDelta>, a: u32, b: u32)
    ensures
        pair_delta_total(s + t, a, b) == pair_delta_total(s, a, b) + pair_delta_total(t, a, b),
    decreases t.len(),
{
    if t.len() == 0 {
        assert(s + t =~= s);
    } else {
        assert((s + t).drop_last() =~= s + t.drop_last());
        lemma_pair_delta_total_concat(s, t.drop_last(), a, b);
    }
}

pub proof fn lemma_pair_delta_total_unrelated(s: Seq<PairDelta>, a: u32, b: u32)
    requires
        forall|k: int| 0 <= k < s.len() ==> !((#[trigger] s[k]).item_a == a && s[k].item_b == b),
    ensures
        pair_delta_total(s, a, b) == 0,
    decreases s.len(),
{
    if s.len() > 0 {
        assert(s.last() == s[s.len() - 1]);
        lemma_pair_delta_total_unrelated(s.drop_last(), a, b);
    }
}

/// Two changes for one user give the same cooccurrences whether they come in
/// one batch or in two, and in either order.
pub proof fn lemma_cooccurrence_order_independent(
    s: Seq<Interaction>,
    x: Interaction,
    y: Interaction,
    a: u32,
    b: u32,
)
    ensures
        batch_cooccurrence(s, seq![x, y], a, b) == batch_cooccurrence(s, seq![x], a, b)
            + batch_cooccurrence(s.push(x), seq![y], a, b),
        batch_cooccurrence(s, seq![x, y], a, b) == batch_cooccurrence(s, seq![y, x], a, b),
{
    assert(seq![x, y].last() == y);
    assert(seq![y, x].last() == x);
    assert(seq![x].last() == x);
    assert(seq![y].last() == y);
    assert(seq![x, y].drop_last() =~= seq![x]);
    assert(seq![y, x].drop_last() =~= seq![y]);
    assert(seq![x].drop_last() =~= Seq::<Interaction>::empty());
    assert(seq![y].drop_last() =~= Seq::<Interaction>::empty());
    assert(s + Seq::<Interaction>::empty() =~= s);
    assert(s + seq![x] =~= s.push(x));
    assert(s + seq![y] =~= s.push(y));
    assert(s.push(x) + Seq::<Interaction>::empty() =~= s.push(x));
    assert(s.push(x).drop_last() =~= s);
    assert(s.push(y).drop_last() =~= s);
    assert(pair_total(s.push(x), y.user, a) == pair_total(s, y.user, a) + if x.user == y.user
        && x.item == a {
        x.delta as int
    } else {
        0
    });
    assert(pair_total(s.push(x), y.user, b) == pair_total(s, y.user, b) + if x.user == y.user
        && x.item == b {
        x.delta as int
    } else {
        0
    });
    assert(pair_total(s.push(y), x.user, a) == pair_total(s, x.user, a) + if x.user == y.user
        && y.item == a {
        y.delta as int
    } else {
        0
    });
    assert(pair_total(s.push(y), x.user, b) == pair_total(s, x.user, b) + if x.user == y.user
        && y.item == b {
        y.delta as int
    } else {
        0
    });
    assert(contribution(s, x, a, b) + contribution(s.push(x), y, a, b) == contribution(s, y, a, b)
        + contribution(s.push(y), x, a, b)) by (nonlinear_arith)
        requires
            contribution(s, x, a, b) == (if a <= b {
                0
            } else if x.item == a {
                x.delta * pair_total(s, x.user, b)
            } else if x.item == b {
                x.delta * pair_total(s, x.user, a)
            } else {
                0
            }),
            contribution(s, y, a, b) == (if a <= b {
                0
            } else if y.item == a {
                y.delta * pair_total(s, y.user, b)
            } else if y.item == b {
                y.delta * pair_total(s, y.user, a)
            } else {
                0
            }),
            contribution(s.push(x), y, a, b) == (if a <= b {
                0
            } else if y.item == a {
                y.delta * pair_total(s.push(x), y.user, b)
            } else if y.item == b {
                y.delta * pair_total(s.push(x), y.user, a)
            } else {
                0
            }),
            contribution(s.push(y), x, a, b) == (if a <= b {
                0
            } else if x.item == a {
                x.delta * pair_total(s.push(y), x.user, b)
            } else if x.item == b {
                x.delta * pair_total(s.push(y), x.user, a)
            } else {
                0
            }),
            pair_total(s.push(x), y.user, a) == pair_total(s, y.user, a) + if x.user == y.user
                && x.item == a {
                x.delta as int
            } else {
                0
            },
            pair_total(s.push(x), y.user, b) == pair_total(s, y.user, b) + if x.user == y.user
                && x.item == b {
                x.delta as int
            } else {
                0
            },
            pair_total(s.push(y), x.user, a) == pair_total(s, x.user, a) + if x.user == y.user
                && y.item == a {
                y.delta as int
            } else {
                0
            },
            pair_total(s.push(y), x.user, b) == pair_total(s, x.user, b) + if x.user == y.user
                && y.item == b {
                y.delta as int
            } else {
                0
            },
    ;
    assert(batch_cooccurrence(s, Seq::<Interaction>::empty(), a, b) == 0);
    assert(batch_cooccurrence(s.push(x), Seq::<Interaction>::empty(), a, b) == 0);
    assert(batch_cooccurrence(s, seq![x], a, b) == contribution(s, x, a, b));
    assert(batch_cooccurrence(s, seq![y], a, b) == contribution(s, y, a, b));
    assert(batch_cooccurrence(s.push(x), seq![y], a, b) == contribution(s.push(x), y, a, b));
    assert(batch_cooccurrence(s, seq![x, y], a, b) == contribution(s, x, a, b) + contribution(
        s.push(x),
        y,
        a,
        b,
    ));
    assert(batch_cooccurrence(s, seq![y, x], a, b) == contribution(s, y, a, b) + contribution(
        s.push(y),
        x,
        a,
        b,
    ));
}

/// The base relation of interactions, kept as a log of signed deltas stamped
/// with the logical time of the batch that brought them.
pub struct InteractionStore {
    pub log: Vec<Interaction>,
    pub time: u64,
}

impl InteractionStore {
    pub open spec fn wf(&self) -> bool {
        &&& unit_deltas(self.log@)
        &&& self.log@.len() <= MAX_LOG
        &&& forall|i: int| 0 <= i < self.log@.len() ==> #[trigger] self.log@[i].time <= self.time
    }

    pub fn new() -> (r: InteractionStore)
        ensures
            r.wf(),
            r.log@.len() == 0,
            r.time == 0,
    {
        InteractionStore { log: Vec::new(), time: 0 }
    }

    /// The current interaction count of `item`.
    pub fn item_count(&self, item: u32) -> (r: i64)
        requires
            self.wf(),
        ensures
            r == item_total(self.log@, item),
    {
        let mut sum: i64 = 0;
        let mut i: usize = 0;
        while i < self.log.len()
            invariant
                self.wf(),
                i <= self.log@.len(),
                sum == item_total(self.log@.take(i as int), item),
            decreases self.log.len() - i,
        {
            proof {
                let t = self.log@.take(i as int + 1);
                assert(t.drop_last() =~= self.log@.take(i as int));
                assert(unit_deltas(t));
                lemma_item_total_bound(t, item);
            }
            if self.log[i].item == item {
                sum = sum + self.log[i].delta;
            }
            i = i + 1;
        }
        assert(self.log@.take(i as int) =~= self.log@);
        sum
    }

    /// Whether removing `(user, item)` now would drive its multiplicity below
    /// zero, which legitimate data never does.
    pub fn removal_goes_negative(&self, user: u32, item: u32) -> (r: bool)
        requires
            self.wf(),
        ensures
            r == (pair_total(self.log@, user, item) <= 0),
    {
        self.multiplicity(user, item) <= 0
    }

    /// The Jaccard similarity of `item_a` and `item_b` given their current
    /// cooccurrence count `cooc`.
    pub fn pair_similarity(&self, item_a: u32, item_b: u32, cooc: i64) -> (r: Result<
        Ratio,
        SimilarityError,
    >)
        requires
            self.wf(),
        ensures
            r == jaccard_result(
                cooc as int,
                item_total(self.log@, item_a),
                item_total(self.log@, item_b),
            ),
    {
        let count_a = self.item_count(item_a);
        let count_b = self.item_count(item_b);
        jaccard(cooc, count_a, count_b)
    }

    /// The current multiplicity of the interaction `(user, item)`.
    pub fn multiplicity(&self, user: u32, item: u32) -> (r: i64)
        requires
            self.wf(),
        ensures
            r == pair_total(self.log@, user, item),
    {
        let mut sum: i64 = 0;
        let mut i: usize = 0;
        while i < self.log.len()
            invariant
                self.wf(),
                i <= self.log@.len(),
                sum == pair_total(self.log@.take(i as int), user, item),
            decreases self.log.len() - i,
        {
            proof {
                let t = self.log@.take(i as int + 1);
                assert(t.drop_last() =~= self.log@.take(i as int));
                assert(unit_deltas(t));
                lemma_pair_total_bound(t, user, item);
            }
            if self.log[i].user == user && self.log[i].item == item {
                sum = sum + self.log[i].delta;
            }
            i = i + 1;
        }
        assert(self.log@.take(i as int) =~= self.log@);
        sum
    }

    /// Applies one batch of adds or removes at a new logical time and returns
    /// the per-item count diffs it causes, one per interaction. An empty batch
    /// changes nothing and yields no diffs.
    pub fn apply_batch(&mut self, change: Change, pairs: &Vec<(u32, u32)>) -> (r: Result<
        Vec<CountDiff>,
        BatchError,
    >)
        requires
            old(self).wf(),
        ensures
            final(self).wf(),
            pairs@.len() == 0 ==> *final(self) == *old(self) && (r matches Ok(d) && d@.len() == 0),
            pairs@.len() > 0 && old(self).log@.len() + pairs@.len() > MAX_LOG ==> r == Err::<
                Vec<CountDiff>,
                BatchError,
            >(BatchError::Capacity),
            pairs@.len() > 0 && old(self).log@.len() + pairs@.len() <= MAX_LOG && old(self).time
                == u64::MAX ==> r == Err::<Vec<CountDiff>, BatchError>(BatchError::ClockExhausted),
            r is Err ==> *final(self) == *old(self),
            pairs@.len() > 0 && old(self).log@.len() + pairs@.len() <= MAX_LOG && old(self).time
                < u64::MAX ==> r is Ok,
            pairs@.len() > 0 ==> (r matches Ok(d) ==> {
                &&& final(self).time == old(self).time + 1
                &&& final(self).log@ == old(self).log@ + batch_entries(
                    pairs@,
                    change,
                    final(self).time,
                )
                &&& d@.len() == pairs@.len()
                &&& forall|k: int|
                    0 <= k < d@.len() ==> #[trigger] d@[k] == (CountDiff {
                        item: pairs@[k].1,
                        delta: sign_of(change) as i64,
                        time: final(self).time,
                    })
            }),
            r matches Ok(d) ==> forall|item: u32|
                #[trigger] item_total(final(self).log@, item) == item_total(old(self).log@, item)
                    + diff_total(d@, item),
    {
        let mut out: Vec<CountDiff> = Vec::new();
        if pairs.len() == 0 {
            proof {
                assert forall|item: u32|
                    #[trigger] item_total(self.log@, item) == item_total(old(self).log@, item)
                        + diff_total(out@, item) by {}
            }
            return Ok(out);
        }
        if pairs.len() > MAX_LOG - self.log.len() {
            return Err(BatchError::Capacity);
        }
        if self.time == u64::MAX {
            return Err(BatchError::ClockExhausted);
        }
        self.time = self.time + 1;
        let t = self.time;
        let sign: i64 = match change {
            Change::Add => 1,
            Change::Remove => -1,
        };
        let ghost start = self.log@;
        let mut i: usize = 0;
        while i < pairs.len()
            invariant
                i <= pairs@.len(),
                t == self.time,
                t == old(self).time + 1,
                sign == sign_of(change),
                start == old(self).log@,
                start.len() + pairs@.len() <= MAX_LOG,
                unit_deltas(start),
                forall|j: int| 0 <= j < start.len() ==> #[trigger] start[j].time <= t,
                self.log@ == start + batch_entries(pairs@, change, t).take(i as int),
                out@.len() == i,
                forall|k: int|
                    0 <= k < i ==> #[trigger] out@[k] == (CountDiff {
                        item: pairs@[k].1,
                        delta: sign,
                        time: t,
                    }),
                forall|item: u32|
                    #[trigger] item_total(self.log@, item) == item_total(start, item) + diff_total(
                        out@,
                        item,
                    ),
            decreases pairs.len() - i,
        {
            let (user, item) = pairs[i];
            let e = Interaction { user, item, delta: sign, time: t };
            let d = CountDiff { item, delta: sign, time: t };
            let ghost prev_log = self.log@;
            let ghost prev_out = out@;
            self.log.push(e);
            out.push(d);
            proof {
                assert(self.log@.drop_last() =~= prev_log);
                assert(out@.drop_last() =~= prev_out);
                assert forall|x: u32|
                    #[trigger] item_total(self.log@, x) == item_total(start, x) + diff_total(
                        out@,
                        x,
                    ) by {
                    assert(item_total(prev_log, x) == item_total(start, x) + diff_total(
                        prev_out,
                        x,
                    ));
                }
                assert(self.log@ =~= start + batch_entries(pairs@, change, t).take(i as int + 1));
            }
            i = i + 1;
        }
        proof {
            assert(batch_entries(pairs@, change, t).take(i as int) =~= batch_entries(
                pairs@,
                change,
                t,
            ));
            assert forall|j: int| 0 <= j < self.log@.len() implies #[trigger] self.log@[j].delta
                == 1 || self.log@[j].delta == -1 by {
                if j < start.len() {
                    assert(self.log@[j] == start[j]);
                }
            }
            assert forall|j: int| 0 <= j < self.log@.len() implies #[trigger] self.log@[j].time
                <= self.time by {
                if j < start.len() {
                    assert(self.log@[j] == start[j]);
                }
            }
        }
        Ok(out)
    }

    /// The cooccurrence contributions that changing the multiplicity of
    /// `(user, item)` by `sign` makes against the user's interactions with
    /// other items among the first `upto` recorded deltas: one per such delta,
    /// on the canonical key of the pair, scaled by `sign`.
    pub fn cooccurrence_deltas(&self, user: u32, item: u32, sign: i64, upto: usize) -> (r: Vec<
        PairDelta,
    >)
        requires
            self.wf(),
            sign == 1 || sign == -1,
            upto <= self.log@.len(),
        ensures
            forall|k: int|
                0 <= k < r@.len() ==> (#[trigger] r@[k]).item_a > r@[k].item_b && (r@[k].item_a
                    == item || r@[k].item_b == item) && (r@[k].delta == 1 || r@[k].delta == -1),
            forall|other: u32|
                other != item ==> #[trigger] pair_delta_total(
                    r@,
                    crate::similarity::canonical(item, other).unwrap().0,
                    crate::similarity::canonical(item, other).unwrap().1,
                ) == sign * pair_total(self.log@.take(upto as int), user, other),
            forall|a: u32, b: u32|
                #[trigger] pair_delta_total(r@, a, b) == contribution(
                    self.log@.take(upto as int),
                    Interaction { user, item, delta: sign, time: 0 },
                    a,
                    b,
                ),
    {
        let mut out: Vec<PairDelta> = Vec::new();
        let mut i: usize = 0;
        while i < upto
            invariant
                self.wf(),
                sign == 1 || sign == -1,
                upto <= self.log@.len(),
                i <= upto,
                out@.len() <= i,
                forall|k: int|
                    0 <= k < out@.len() ==> (#[trigger] out@[k]).item_a > out@[k].item_b
                        && (out@[k].item_a == item || out@[k].item_b == item) && (out@[k].delta == 1
                        || out@[k].delta == -1),
                forall|other: u32|
                    other != item ==> #[trigger] pair_delta_total(
                        out@,
                        crate::similarity::canonical(item, other).unwrap().0,
                        crate::similarity::canonical(item, other).unwrap().1,
                    ) == sign * pair_total(self.log@.take(i as int), user, other),
            decreases upto - i,
        {
            let e = self.log[i];
            let ghost prev = out@;
            assert(e.delta == 1 || e.delta == -1);
            let ghost t = self.log@.take(i as int + 1);
            proof {
                assert(t.drop_last() =~= self.log@.take(i as int));
                assert(t.last() == e);
            }
            if e.user == user && e.item != item {
                let key = crate::similarity::canonical_pair(item, e.item);
                let (a, b) = key.unwrap();
                out.push(PairDelta { item_a: a, item_b: b, delta: sign * e.delta });
                proof {
                    assert(out@.drop_last() =~= prev);
                    assert forall|other: u32|
                        other != item implies #[trigger] pair_delta_total(
                            out@,
                            crate::similarity::canonical(item, other).unwrap().0,
                            crate::similarity::canonical(item, other).unwrap().1,
                        ) == sign * pair_total(t, user, other) by {
                        let p = crate::similarity::canonical(item, other).unwrap();
                        assert(pair_delta_total(prev, p.0, p.1) == sign * pair_total(
                            self.log@.take(i as int),
                            user,
                            other,
                        ));
                        assert((a == p.0 && b == p.1) <==> e.item == other);
                        assert(sign * pair_total(t, user, other) == sign * pair_total(
                            self.log@.take(i as int),
                            user,
                            other,
                        ) + if e.item == other {
                            sign * e.delta
                        } else {
                            0
                        }) by (nonlinear_arith)
                            requires
                                pair_total(t, user, other) == pair_total(
                                    self.log@.take(i as int),
                                    user,
                                    other,
                                ) + if e.item == other {
                                    e.delta as int
                                } else {
                                    0
                                },
                        ;
                    }
                }
            } else {
                proof {
                    assert forall|other: u32|
                        other != item implies #[trigger] pair_delta_total(
                            out@,
                            crate::similarity::canonical(item, other).unwrap().0,
                            crate::similarity::canonical(item, other).unwrap().1,
                        ) == sign * pair_total(t, user, other) by {
                        assert(pair_total(t, user, other) == pair_total(
                            self.log@.take(i as int),
                            user,
                            other,
                        ));
                    }
                }
            }
            i = i + 1;
        }
        proof {
            let x = Interaction { user, item, delta: sign, time: 0 };
            assert forall|a: u32, b: u32|
                #[trigger] pair_delta_total(out@, a, b) == contribution(
                    self.log@.take(upto as int),
                    x,
                    a,
                    b,
                ) by {
                if a <= b || (item != a && item != b) {
                    lemma_pair_delta_total_unrelated(out@, a, b);
                } else if item == a {
                    let p = crate::similarity::canonical(item, b).unwrap();
                    assert(p == (a, b));
                    assert(pair_delta_total(out@, p.0, p.1) == sign * pair_total(
                        self.log@.take(upto as int),
                        user,
                        b,
                    ));
                } else {
                    let p = crate::similarity::canonical(item, a).unwrap();
                    assert(p == (a, b));
                    assert(pair_delta_total(out@, p.0, p.1) == sign * pair_total(
                        self.log@.take(upto as int),
                        user,
                        a,
                    ));
                }
            }
        }
        out
    }

    /// Applies a batch like `apply_batch` and also returns the cooccurrence
    /// contributions it causes. Each delta of the batch is joined against the
    /// user's interactions recorded before it (earlier batches and the earlier
    /// deltas of this batch), so two changes for one user in one batch count
    /// exactly as they would in two batches.
    pub fn apply_batch_with_cooccurrences(&mut self, change: Change, pairs: &Vec<(u32, u32)>) -> (r:
        Result<(Vec<CountDiff>, Vec<PairDelta>), BatchError>)
        requires
            old(self).wf(),
        ensures
            final(self).wf(),
            pairs@.len() == 0 ==> *final(self) == *old(self) && (r matches Ok(d) && d.0@.len() == 0
                && d.1@.len() == 0),
            pairs@.len() > 0 && old(self).log@.len() + pairs@.len() > MAX_LOG ==> r == Err::<
                (Vec<CountDiff>, Vec<PairDelta>),
                BatchError,
            >(BatchError::Capacity),
            pairs@.len() > 0 && old(self).log@.len() + pairs@.len() <= MAX_LOG && old(self).time
                == u64::MAX ==> r == Err::<(Vec<CountDiff>, Vec<PairDelta>), BatchError>(
                BatchError::ClockExhausted,
            ),
            r is Err ==> *final(self) == *old(self),
            pairs@.len() > 0 && old(self).log@.len() + pairs@.len() <= MAX_LOG && old(self).time
                < u64::MAX ==> r is Ok,
            pairs@.len() > 0 ==> (r matches Ok(d) ==> {
                &&& final(self).time == old(self).time + 1
                &&& final(self).log@ == old(self).log@ + batch_entries(
                    pairs@,
                    change,
                    final(self).time,
                )
                &&& d.0@.len() == pairs@.len()
                &&& forall|k: int|
                    0 <= k < d.0@.len() ==> #[trigger] d.0@[k] == (CountDiff {
                        item: pairs@[k].1,
                        delta: sign_of(change) as i64,
                        time: final(self).time,
                    })
            }),
            r matches Ok(d) ==> forall|item: u32|
                #[trigger] item_total(final(self).log@, item) == item_total(old(self).log@, item)
                    + diff_total(d.0@, item),
            r matches Ok(d) ==> forall|k: int|
                0 <= k < d.1@.len() ==> (#[trigger] d.1@[k]).item_a > d.1@[k].item_b && (d.1@[k].delta
                    == 1 || d.1@[k].delta == -1),
            pairs@.len() > 0 ==> (r matches Ok(d) ==> forall|a: u32, b: u32|
                #[trigger] pair_delta_total(d.1@, a, b) == batch_cooccurrence(
                    old(self).log@,
                    batch_entries(pairs@, change, final(self).time),
                    a,
                    b,
                )),
    {
        if pairs.len() == 0 {
            return Ok((Vec::new(), Vec::new()));
        }
        let start: usize = self.log.len();
        let counts = match self.apply_batch(change, pairs) {
            Ok(c) => c,
            Err(e) => {
                return Err(e);
            },
        };
        let sign: i64 = match change {
            Change::Add => 1,
            Change::Remove => -1,
        };
        let ghost after = *self;
        let ghost sl = old(self).log@;
        let ghost entries = batch_entries(pairs@, change, self.time);
        let mut joined: Vec<PairDelta> = Vec::new();
        let mut k: usize = 0;
        while k < pairs.len()
            invariant
                *self == after,
                self.wf(),
                sign == 1 || sign == -1,
                pairs@.len() > 0 ==> self.log@.len() == start + pairs@.len(),
                k <= pairs@.len(),
                forall|j: int|
                    0 <= j < joined@.len() ==> (#[trigger] joined@[j]).item_a > joined@[j].item_b && (
                    joined@[j].delta == 1 || joined@[j].delta == -1),
                sign == sign_of(change),
                start == sl.len(),
                self.log@ == sl + entries,
                entries.len() == pairs@.len(),
                entries == batch_entries(pairs@, change, after.time),
                forall|a: u32, b: u32|
                    #[trigger] pair_delta_total(joined@, a, b) == batch_cooccurrence(
                        sl,
                        entries.take(k as int),
                        a,
                        b,
                    ),
            decreases pairs.len() - k,
        {
            let (user, item) = pairs[k];
            let mut more = self.cooccurrence_deltas(user, item, sign, start + k);
            let ghost prev = joined@;
            let ghost m = more@;
            joined.append(&mut more);
            proof {
                assert(pairs@[k as int] == (user, item));
                assert(entries[k as int] == Interaction {
                    user: pairs@[k as int].0,
                    item: pairs@[k as int].1,
                    delta: sign_of(change) as i64,
                    time: after.time,
                });
                assert(entries[k as int].user == user);
                assert(entries[k as int].item == item);
                assert(entries[k as int].delta == sign);
                let ek = entries.take(k as int + 1);
                assert(ek.drop_last() =~= entries.take(k as int));
                assert(ek.last() == entries[k as int]);
                let cut = start as int + k as int;
                assert(self.log@.len() == sl.len() + entries.len());
                assert forall|j: int| 0 <= j < cut implies #[trigger] self.log@.take(cut)[j] == (sl
                    + entries.take(k as int))[j] by {
                    if j >= sl.len() {
                        assert(self.log@[j] == entries[j - sl.len()]);
                    }
                }
                assert(self.log@.take(cut) =~= sl + entries.take(k as int));
                assert forall|a: u32, b: u32|
                    #[trigger] pair_delta_total(joined@, a, b) == batch_cooccurrence(sl, ek, a, b) by {
                    lemma_pair_delta_total_concat(prev, m, a, b);
                    assert(contribution(
                        sl + entries.take(k as int),
                        Interaction { user, item, delta: sign, time: 0 },
                        a,
                        b,
                    ) == contribution(sl + entries.take(k as int), entries[k as int], a, b));
                }
            }
            k = k + 1;
        }
        proof {
            assert(entries.take(k as int) =~= entries);
        }
        Ok((counts, joined))
    }
}

} // verus!
