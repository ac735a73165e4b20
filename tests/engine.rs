use item_similarity::similarity::{canonical_pair, jaccard, Ratio, SimilarityError};
use item_similarity::store::{consolidate, BatchError, Change, CountDiff, InteractionStore, PairDelta};
use std::collections::BTreeMap;

fn add_pairs(totals: &mut BTreeMap<(u32, u32), i64>, deltas: &[PairDelta]) {
    for d in deltas {
        assert!(d.item_a > d.item_b);
        *totals.entry((d.item_a, d.item_b)).or_insert(0) += d.delta;
    }
}

fn net(deltas: &[PairDelta]) -> BTreeMap<(u32, u32), i64> {
    let mut m = BTreeMap::new();
    for d in consolidate(&deltas.to_vec()) {
        assert!(d.delta != 0);
        assert!(m.insert((d.item_a, d.item_b), d.delta).is_none());
    }
    m
}

fn similarity(store: &InteractionStore, cooc: &BTreeMap<(u32, u32), i64>, a: u32, b: u32) -> f64 {
    let c = cooc[&(a, b)];
    let r = jaccard(c, store.item_count(a), store.item_count(b)).unwrap();
    r.num as f64 / r.den as f64
}

fn first_batch() -> Vec<(u32, u32)> {
    vec![(0, 0), (0, 1), (0, 2), (1, 1), (1, 2), (2, 0), (2, 1), (2, 3)]
}

#[test]
fn scenario_first_batch() {
    let mut store = InteractionStore::new();
    let (counts, pairs) = store.apply_batch_with_cooccurrences(Change::Add, &first_batch()).unwrap();
    assert_eq!(counts.len(), 8);
    assert!(counts.iter().all(|d| d.time == 1 && d.delta == 1));
    assert_eq!(store.item_count(0), 2);
    assert_eq!(store.item_count(1), 3);
    assert_eq!(store.item_count(2), 2);
    assert_eq!(store.item_count(3), 1);
    let cooc = net(&pairs);
    assert_eq!(cooc[&(1, 0)], 2);
    assert_eq!(cooc[&(2, 0)], 1);
    assert_eq!(cooc[&(2, 1)], 2);
    assert_eq!(cooc[&(3, 0)], 1);
    assert_eq!(cooc[&(3, 1)], 1);
    let expected = [((1, 0), 0.667), ((2, 0), 0.333), ((2, 1), 0.667), ((3, 0), 0.5), ((3, 1), 0.333)];
    for ((a, b), s) in expected {
        assert!((similarity(&store, &cooc, a, b) - s).abs() < 1e-3);
    }
}

#[test]
fn scenario_second_batch_removes() {
    let mut store = InteractionStore::new();
    let (_, first) = store.apply_batch_with_cooccurrences(Change::Add, &first_batch()).unwrap();
    let mut cooc = BTreeMap::new();
    add_pairs(&mut cooc, &first);
    let (counts, second) =
        store.apply_batch_with_cooccurrences(Change::Remove, &vec![(1, 1), (1, 2)]).unwrap();
    assert_eq!(
        counts,
        vec![
            CountDiff { item: 1, delta: -1, time: 2 },
            CountDiff { item: 2, delta: -1, time: 2 }
        ]
    );
    let changed = net(&second);
    assert_eq!(changed.len(), 1);
    assert_eq!(changed[&(2, 1)], -1);
    add_pairs(&mut cooc, &second);
    assert_eq!(store.item_count(1), 2);
    assert_eq!(store.item_count(2), 1);
    assert_eq!(cooc[&(2, 1)], 1);
    assert!((similarity(&store, &cooc, 2, 1) - 0.5).abs() < 1e-9);
}

#[test]
fn empty_batch_changes_nothing() {
    let mut store = InteractionStore::new();
    store.apply_batch(Change::Add, &vec![(0, 1), (0, 2)]).unwrap();
    let (counts, pairs) = store.apply_batch_with_cooccurrences(Change::Add, &vec![]).unwrap();
    assert!(counts.is_empty());
    assert!(pairs.is_empty());
    assert_eq!(store.time, 1);
    assert_eq!(store.log.len(), 2);
    assert!(store.apply_batch(Change::Remove, &vec![]).unwrap().is_empty());
    assert_eq!(store.time, 1);
}

#[test]
fn one_batch_or_two_give_same_cooccurrences() {
    let mut together = InteractionStore::new();
    let (_, a) = together.apply_batch_with_cooccurrences(Change::Add, &vec![(5, 1), (5, 2)]).unwrap();
    let mut apart = InteractionStore::new();
    let (_, b1) = apart.apply_batch_with_cooccurrences(Change::Add, &vec![(5, 2)]).unwrap();
    let (_, b2) = apart.apply_batch_with_cooccurrences(Change::Add, &vec![(5, 1)]).unwrap();
    let mut b = b1.clone();
    b.extend(b2);
    assert_eq!(net(&a), net(&b));
    assert_eq!(net(&a)[&(2, 1)], 1);
    assert_eq!(together.item_count(1), apart.item_count(1));
    assert_eq!(together.multiplicity(5, 2), apart.multiplicity(5, 2));
}

#[test]
fn add_and_remove_in_one_batch_cancel() {
    let mut store = InteractionStore::new();
    store.apply_batch(Change::Add, &vec![(1, 1), (1, 2)]).unwrap();
    let (_, pairs) = store.apply_batch_with_cooccurrences(Change::Remove, &vec![(1, 1), (1, 2)]).unwrap();
    assert_eq!(net(&pairs)[&(2, 1)], -1);
    assert_eq!(store.multiplicity(1, 1), 0);
}

#[test]
fn count_diffs_sum_to_totals() {
    let mut store = InteractionStore::new();
    let mut sum: BTreeMap<u32, i64> = BTreeMap::new();
    let batches = vec![
        (Change::Add, vec![(0, 7), (1, 7), (2, 8)]),
        (Change::Remove, vec![(1, 7)]),
        (Change::Add, vec![(3, 8), (4, 9)]),
    ];
    for (c, p) in batches {
        for d in store.apply_batch(c, &p).unwrap() {
            *sum.entry(d.item).or_insert(0) += d.delta;
        }
    }
    for item in [7, 8, 9] {
        assert_eq!(sum[&item], store.item_count(item));
    }
    assert_eq!(store.item_count(7), 1);
    assert_eq!(store.item_count(8), 2);
}

#[test]
fn remove_of_absent_interaction_goes_negative() {
    let mut store = InteractionStore::new();
    store.apply_batch(Change::Remove, &vec![(3, 4)]).unwrap();
    assert_eq!(store.multiplicity(3, 4), -1);
    assert_eq!(store.item_count(4), -1);
}

#[test]
fn self_pairs_are_not_emitted() {
    let mut store = InteractionStore::new();
    let (_, pairs) = store.apply_batch_with_cooccurrences(Change::Add, &vec![(0, 3), (0, 3)]).unwrap();
    assert!(pairs.is_empty());
}

#[test]
fn cooccurrence_deltas_against_prefix() {
    let mut store = InteractionStore::new();
    store.apply_batch(Change::Add, &vec![(0, 1), (0, 4), (1, 2)]).unwrap();
    let d = store.cooccurrence_deltas(0, 2, -1, 3);
    assert_eq!(
        d,
        vec![
            PairDelta { item_a: 2, item_b: 1, delta: -1 },
            PairDelta { item_a: 4, item_b: 2, delta: -1 }
        ]
    );
    assert!(store.cooccurrence_deltas(0, 2, 1, 1).len() == 1);
}

#[test]
fn jaccard_exact_values() {
    assert_eq!(jaccard(2, 2, 3), Ok(Ratio { num: 2, den: 3 }));
    assert_eq!(jaccard(1, 1, 1), Ok(Ratio { num: 1, den: 1 }));
    assert_eq!(jaccard(0, 0, 0), Err(SimilarityError::DegenerateDenominator));
    assert_eq!(jaccard(5, 1, 1), Err(SimilarityError::DegenerateDenominator));
    assert_eq!(
        jaccard(i64::MIN, i64::MAX, i64::MAX),
        Ok(Ratio { num: i64::MIN as i128, den: 3 * (i64::MAX as i128) + 1 })
    );
}

#[test]
fn canonical_pair_orders_larger_first() {
    assert_eq!(canonical_pair(1, 3), Some((3, 1)));
    assert_eq!(canonical_pair(3, 1), Some((3, 1)));
    assert_eq!(canonical_pair(2, 2), None);
}

#[test]
fn clock_exhaustion_is_reported() {
    let mut store = InteractionStore::new();
    store.time = u64::MAX;
    assert_eq!(store.apply_batch(Change::Add, &vec![(0, 0)]), Err(BatchError::ClockExhausted));
    assert!(store.log.is_empty());
}

#[test]
fn consolidate_sums_and_drops_zeros() {
    let d = |a: u32, b: u32, delta: i64| PairDelta { item_a: a, item_b: b, delta };
    let input = vec![d(2, 1, 1), d(3, 1, 1), d(2, 1, 1), d(3, 1, -1), d(4, 0, -1)];
    assert_eq!(consolidate(&input), vec![d(2, 1, 2), d(4, 0, -1)]);
    assert!(consolidate(&vec![]).is_empty());
}

#[test]
fn removal_of_absent_interaction_is_flagged() {
    let mut store = InteractionStore::new();
    assert!(store.removal_goes_negative(1, 1));
    store.apply_batch(Change::Add, &vec![(1, 1)]).unwrap();
    assert!(!store.removal_goes_negative(1, 1));
    assert!(store.removal_goes_negative(1, 2));
}

#[test]
fn pair_similarity_uses_current_counts() {
    let mut store = InteractionStore::new();
    store.apply_batch(Change::Add, &first_batch()).unwrap();
    assert_eq!(store.pair_similarity(1, 0, 2), Ok(Ratio { num: 2, den: 3 }));
    assert_eq!(store.pair_similarity(3, 1, 1), Ok(Ratio { num: 1, den: 3 }));
    assert_eq!(store.pair_similarity(9, 8, 0), Err(SimilarityError::DegenerateDenominator));
}
