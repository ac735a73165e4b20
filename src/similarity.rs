use vstd::prelude::*;

verus! {

/// An exact similarity value `num / den`, kept as integers so that it can be
/// compared and stored without rounding.
#[derive(Clone, Copy, Debug, PartialEq, Eq)]
pub struct Ratio {
    pub num: i128,
    pub den: i128,
}

/// Why a similarity could not be computed for a pair.
#[derive(Clone, Copy, Debug, PartialEq, Eq)]
pub enum SimilarityError {
    /// `count_a + count_b - cooccurrences` is zero or negative.
    DegenerateDenominator,
}

/// The Jaccard denominator: the size of the union of the two user sets.
pub open spec fn jaccard_den(cooc: int, count_a: int, count_b: int) -> int {
    count_a + count_b - cooc
}

/// What `jaccard` returns for the given counts.
pub open spec fn jaccard_result(cooc: int, count_a: int, count_b: int) -> Result<
    Ratio,
    SimilarityError,
> {
    if jaccard_den(cooc, count_a, count_b) > 0 {
        Ok(Ratio { num: cooc as i128, den: jaccard_den(cooc, count_a, count_b) as i128 })
    } else {
        Err(SimilarityError::DegenerateDenominator)
    }
}

/// Jaccard similarity `cooc / (count_a + count_b - cooc)` as an exact ratio.
pub fn jaccard(cooc: i64, count_a: i64, count_b: i64) -> (r: Result<Ratio, SimilarityError>)
    ensures
        r == jaccard_result(cooc as int, count_a as int, count_b as int),
        jaccard_den(cooc as int, count_a as int, count_b as int) > 0 <==> r.is_ok(),
        r matches Ok(q) ==> q.num == cooc as int && q.den == jaccard_den(
            cooc as int,
            count_a as int,
            count_b as int,
        ),
        r matches Err(e) ==> e == SimilarityError::DegenerateDenominator,
{
    let den: i128 = count_a as i128 + count_b as i128 - cooc as i128;
    if den > 0 {
        Ok(Ratio { num: cooc as i128, den })
    } else {
        Err(SimilarityError::DegenerateDenominator)
    }
}

/// When the cooccurrence count is non-negative and at most each item's count,
/// and the items have been seen at all, the similarity is defined and lies in
/// the unit interval.
pub proof fn lemma_similarity_in_unit_range(cooc: int, count_a: int, count_b: int)
    requires
        0 <= cooc,
        cooc <= count_a,
        cooc <= count_b,
        1 <= count_a,
    ensures
        jaccard_den(cooc, count_a, count_b) > 0,
        0 <= cooc <= jaccard_den(cooc, count_a, count_b),
{
}

/// The canonical key of an unordered pair of distinct items: larger id first.
pub open spec fn canonical(x: u32, y: u32) -> Option<(u32, u32)> {
    if x == y {
        None
    } else if x > y {
        Some((x, y))
    } else {
        Some((y, x))
    }
}

/// Orders a pair of items as `(larger, smaller)`; a self-pair has no key.
pub fn canonical_pair(x: u32, y: u32) -> (r: Option<(u32, u32)>)
    ensures
        r == canonical(x, y),
        r matches Some(p) ==> p.0 > p.1,
{
    if x == y {
        None
    } else if x > y {
        Some((x, y))
    } else {
        Some((y, x))
    }
}

} // verus!
