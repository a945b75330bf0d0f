use vstd::arithmetic::div_mod::{lemma_div_is_ordered, lemma_hoist_over_denominator};
use vstd::prelude::*;

use crate::version::{semver_weight_of, Version, SCALE};

verus! {

/// One community vote on a candidate.
#[derive(Clone, Copy, Debug, PartialEq, Eq, Structural)]
pub enum Vote {
    Yes,
    No,
    Nil,
}

/// A candidate version of a dependency.
#[derive(Clone, Debug)]
pub struct Node {
    pub id: String,
    pub version: Version,
    /// Confidence in the candidate's build artifact, in units of `1 / SCALE`.
    /// Meant to lie in `0..=SCALE`; values outside are clamped where scored.
    pub artifact_score: i128,
    pub votes: Vec<Vote>,
}

/// A vote's worth in half points: `Yes` 2, `Nil` 1, `No` 0.
pub open spec fn half_points(v: Vote) -> nat {
    match v {
        Vote::Yes => 2,
        Vote::Nil => 1,
        Vote::No => 0,
    }
}

pub open spec fn total_half_points(votes: Seq<Vote>) -> nat
    decreases votes.len(),
{
    if votes.len() == 0 {
        0
    } else {
        total_half_points(votes.drop_last()) + half_points(votes.last())
    }
}

/// The mean vote (`Yes` 1, `Nil` 0.5, `No` 0) in units of `1 / SCALE`, rounded
/// down; exactly one half where there are no votes.
pub open spec fn consensus_of(votes: Seq<Vote>) -> nat {
    if votes.len() == 0 {
        (SCALE / 2) as nat
    } else {
        (SCALE as nat * total_half_points(votes)) / (2 * votes.len())
    }
}

/// `x` brought into `0..=SCALE`.
pub open spec fn clamp_unit(x: int) -> nat {
    if x < 0 {
        0
    } else if x > SCALE {
        SCALE as nat
    } else {
        x as nat
    }
}

/// `0.5 * consensus + 0.3 * artifact + 0.2 * semver`, the last two clamped
/// into `0..=SCALE`, rounded down.
pub open spec fn blend(consensus: int, artifact: int, semver: int) -> int {
    (5 * consensus + 3 * clamp_unit(artifact) + 2 * clamp_unit(semver)) / 10
}

pub open spec fn combined_of(n: Node) -> int {
    blend(consensus_of(n.votes@) as int, n.artifact_score as int, semver_weight_of(n.version) as int)
}

proof fn lemma_points_update(votes: Seq<Vote>, i: int, v: Vote)
    requires
        0 <= i < votes.len(),
    ensures
        total_half_points(votes.update(i, v)) + half_points(votes[i]) == total_half_points(votes)
            + half_points(v),
    decreases votes.len(),
{
    let u = votes.update(i, v);
    if i == votes.len() - 1 {
        assert(u.drop_last() =~= votes.drop_last());
    } else {
        assert(u.drop_last() =~= votes.drop_last().update(i, v));
        lemma_points_update(votes.drop_last(), i, v);
    }
}

/// Raising one vote (`No` to `Nil` or `Yes`, `Nil` to `Yes`) strictly raises
/// the consensus score, for any number of votes up to `SCALE / 2`.
pub proof fn lemma_raised_vote_shows(votes: Seq<Vote>, i: int, v: Vote)
    requires
        0 <= i < votes.len(),
        votes.len() <= SCALE / 2,
        half_points(v) > half_points(votes[i]),
    ensures
        consensus_of(votes) < consensus_of(votes.update(i, v)),
{
    let u = votes.update(i, v);
    lemma_points_update(votes, i, v);
    let k = total_half_points(votes) as int;
    let k2 = total_half_points(u) as int;
    let n2 = 2 * votes.len();
    let sc = SCALE as int;
    assert(sc * k2 >= sc * k + n2) by (nonlinear_arith)
        requires
            k2 >= k + 1,
            sc >= n2,
    ;
    lemma_div_is_ordered(sc * k + n2, sc * k2, n2 as int);
    lemma_hoist_over_denominator(sc * k, 1, n2);
}

/// A higher consensus, artifact or version weight never lowers the blended score.
pub proof fn lemma_blend_monotone(c1: int, a1: int, s1: int, c2: int, a2: int, s2: int)
    requires
        c1 <= c2,
        a1 <= a2,
        s1 <= s2,
    ensures
        blend(c1, a1, s1) <= blend(c2, a2, s2),
{
    let x = 5 * c1 + 3 * clamp_unit(a1) + 2 * clamp_unit(s1);
    let y = 5 * c2 + 3 * clamp_unit(a2) + 2 * clamp_unit(s2);
    assert(x <= y);
    assert(x / 10 <= y / 10) by (nonlinear_arith)
        requires
            x <= y,
    ;
}

impl Node {
    /// The mean of the votes, `Yes` 1, `Nil` 0.5 and `No` 0, in `0..=SCALE`;
    /// one half where there are no votes.
    pub fn consensus_score(&self) -> (r: u128)
        ensures
            r == consensus_of(self.votes@),
            r <= SCALE,
    {
        let n = self.votes.len();
        if n == 0 {
            return SCALE / 2;
        }
        let mut total: u128 = 0;
        let mut i: usize = 0;
        while i < n
            invariant
                i <= n,
                n == self.votes@.len(),
                total == total_half_points(self.votes@.subrange(0, i as int)),
                total <= 2 * i,
            decreases n - i,
        {
            let points: u128 = match self.votes[i] {
                Vote::Yes => 2,
                Vote::Nil => 1,
                Vote::No => 0,
            };
            assert(self.votes@.subrange(0, i + 1).drop_last() =~= self.votes@.subrange(0, i as int));
            total = total + points;
            i = i + 1;
        }
        assert(self.votes@.subrange(0, n as int) =~= self.votes@);
        let den = 2 * (n as u128);
        proof {
            assert((SCALE as int) * total <= (SCALE as int) * 0x4_0000_0000_0000_0000int) by (
            nonlinear_arith)
                requires
                    total <= 0x4_0000_0000_0000_0000int,
            ;
            assert(SCALE * total <= SCALE * den) by (nonlinear_arith)
                requires
                    total <= den,
            ;
            assert((SCALE * total) as int / (den as int) <= SCALE) by (nonlinear_arith)
                requires
                    SCALE * total <= SCALE * den,
                    den > 0,
            ;
        }
        SCALE * total / den
    }

    /// `0.5 * consensus + 0.3 * artifact + 0.2 * semver weight`, with the
    /// artifact confidence and the weight first clamped into `0..=SCALE`.
    pub fn combined_score(&self) -> (r: u128)
        ensures
            r == combined_of(*self),
            r <= SCALE,
    {
        let c = self.consensus_score();
        let a: u128 = if self.artifact_score < 0 {
            0
        } else if self.artifact_score as u128 > SCALE {
            SCALE
        } else {
            self.artifact_score as u128
        };
        let s = self.version.semver_weight();
        (5 * c + 3 * a + 2 * s) / 10
    }
}

} // verus!
