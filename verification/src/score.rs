//! The relevance score: inverse document frequency combined with a
//! length-normalized term-frequency saturation curve.
//!
//! Scores are exact fixed-point values in units of `1 / SCORE_SCALE`, so a
//! score is a plain integer and two runs over the same segment produce
//! identical values.  The curve is `idf * tf / (tf + norm)`: it grows with
//! the term frequency `tf`, shrinks with the document's length norm, and is
//! never negative.

use vstd::prelude::*;

use vstd::arithmetic::div_mod::{
    lemma_div_is_ordered,
    lemma_div_is_ordered_by_denominator,
    lemma_div_pos_is_pos,
    lemma_fundamental_div_mod,
    lemma_div_by_multiple,
    lemma_multiply_divide_le,
};

verus! {

/// Scores are rationals expressed in units of `1 / SCORE_SCALE`.
pub const SCORE_SCALE: u64 = 1_000_000;

/// The inverse document frequency of a term with document frequency `df`:
/// `SCORE_SCALE / df`, rounded down.  Defined only for `df >= 1`; a zero
/// document frequency is the distinct "non-existent term" state and is
/// never divided into.
pub open spec fn idf_spec(df: int) -> int {
    SCORE_SCALE as int / df
}

/// The score of a document in which the term (or phrase) occurs `tf` times
/// and whose length norm is `norm`: `idf * tf / (tf + norm)`, rounded down.
pub open spec fn score_spec(idf: int, tf: int, norm: int) -> int {
    (idf * tf) / (tf + norm)
}

/// The idf of a term with document frequency `df >= 1`.
pub fn idf_value(df: u64) -> (r: u64)
    requires
        df >= 1,
    ensures
        r == idf_spec(df as int),
        r <= SCORE_SCALE,
{
    proof {
        lemma_div_is_ordered_by_denominator(SCORE_SCALE as int, 1, df as int);
    }
    SCORE_SCALE / df
}

/// The score never exceeds the idf: `tf / (tf + norm)` is at most one.
pub proof fn lemma_score_le_idf(idf: int, tf: int, norm: int)
    requires
        0 <= idf,
        1 <= tf,
        0 <= norm,
    ensures
        0 <= score_spec(idf, tf, norm) <= idf,
{
    lemma_div_pos_is_pos(idf * tf, tf + norm);
    assert(idf * tf >= 0) by (nonlinear_arith)
        requires
            0 <= idf,
            1 <= tf,
    ;
    assert(idf * tf <= (tf + norm) * idf) by (nonlinear_arith)
        requires
            0 <= idf,
            1 <= tf,
            0 <= norm,
    ;
    lemma_multiply_divide_le(idf * tf, tf + norm, idf);
}

/// Compute the score of one document.
pub fn score_value(idf: u64, tf: u64, norm: u8) -> (r: u64)
    requires
        tf >= 1,
    ensures
        r == score_spec(idf as int, tf as int, norm as int),
        r <= idf,
{
    proof {
        lemma_score_le_idf(idf as int, tf as int, norm as int);
        assert(idf as int * tf as int <= u128::MAX) by (nonlinear_arith)
            requires
                0 <= idf <= u64::MAX,
                0 <= tf <= u64::MAX,
        ;
    }
    let num: u128 = (idf as u128) * (tf as u128);
    let den: u128 = (tf as u128) + (norm as u128);
    (num / den) as u64
}

/// The score is monotonic non-decreasing in the term frequency, for a fixed
/// document length.
pub proof fn lemma_score_monotone_tf(idf: int, tf1: int, tf2: int, norm: int)
    requires
        0 <= idf,
        1 <= tf1 <= tf2,
        0 <= norm,
    ensures
        score_spec(idf, tf1, norm) <= score_spec(idf, tf2, norm),
{
    let d1 = tf1 + norm;
    let d2 = tf2 + norm;
    let q = (idf * tf1) / d1;
    lemma_score_le_idf(idf, tf1, norm);
    lemma_fundamental_div_mod(idf * tf1, d1);
    assert(q * d1 <= idf * tf1) by (nonlinear_arith)
        requires
            idf * tf1 == d1 * q + (idf * tf1) % d1,
            0 <= (idf * tf1) % d1,
    ;
    assert(q * d2 <= idf * tf2) by (nonlinear_arith)
        requires
            q * d1 <= idf * tf1,
            0 <= q <= idf,
            1 <= tf1 <= tf2,
            d1 == tf1 + norm,
            d2 == tf2 + norm,
            0 <= norm,
    ;
    lemma_div_is_ordered(q * d2, idf * tf2, d2);
    lemma_div_by_multiple(q, d2);
}

/// The score is monotonic non-increasing in the document's length norm, for
/// a fixed term frequency.
pub proof fn lemma_score_antitone_norm(idf: int, tf: int, n1: int, n2: int)
    requires
        0 <= idf,
        1 <= tf,
        0 <= n1 <= n2,
    ensures
        score_spec(idf, tf, n2) <= score_spec(idf, tf, n1),
{
    assert(idf * tf >= 0) by (nonlinear_arith)
        requires
            0 <= idf,
            1 <= tf,
    ;
    lemma_div_is_ordered_by_denominator(idf * tf, tf + n1, tf + n2);
}

/// The idf is monotonic non-increasing in the document frequency: rarer
/// terms weigh more.
pub proof fn lemma_idf_antitone(df1: int, df2: int)
    requires
        1 <= df1 <= df2,
    ensures
        idf_spec(df2) <= idf_spec(df1),
        0 <= idf_spec(df2),
{
    lemma_div_is_ordered_by_denominator(SCORE_SCALE as int, df1, df2);
    lemma_div_pos_is_pos(SCORE_SCALE as int, df2);
}

} // verus!
