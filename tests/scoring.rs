use trident_resolver::version::SCALE;
use trident_resolver::{Node, Version, Vote};

fn node(id: &str, version: &str, artifact: i128, votes: Vec<Vote>) -> Node {
    Node { id: id.to_string(), version: Version::parse(version), artifact_score: artifact, votes }
}

#[test]
fn consensus_mixed_votes() {
    let n = node("A", "1.0.0", 0, vec![Vote::Yes, Vote::Yes, Vote::Nil]);
    assert_eq!(n.consensus_score(), 833_333_333_333_333_333);
}

#[test]
fn consensus_without_votes_is_half() {
    let n = node("A", "1.0.0", 0, vec![]);
    assert_eq!(n.consensus_score(), SCALE / 2);
    assert_eq!(n.consensus_score(), 500_000_000_000_000_000);
}

#[test]
fn consensus_extremes() {
    assert_eq!(node("A", "1.0.0", 0, vec![Vote::No, Vote::No]).consensus_score(), 0);
    assert_eq!(node("A", "1.0.0", 0, vec![Vote::Yes]).consensus_score(), SCALE);
    assert_eq!(
        node("A", "1.0.0", 0, vec![Vote::Yes, Vote::Nil, Vote::No, Vote::No]).consensus_score(),
        375_000_000_000_000_000
    );
}

#[test]
fn consensus_ignores_vote_order() {
    let a = node("A", "1.0.0", 0, vec![Vote::No, Vote::Yes, Vote::Nil]);
    let b = node("A", "1.0.0", 0, vec![Vote::Nil, Vote::No, Vote::Yes]);
    assert_eq!(a.consensus_score(), b.consensus_score());
    assert_eq!(a.consensus_score(), 500_000_000_000_000_000);
}

#[test]
fn combined_scores_of_sample_nodes() {
    let b1 = node("B1", "2.0.0-stable", 900_000_000_000_000_000, vec![Vote::Yes, Vote::Yes, Vote::Yes, Vote::No]);
    let b2 = node("B2", "1.5.2-experimental", 700_000_000_000_000_000, vec![Vote::Yes, Vote::Nil, Vote::No, Vote::No]);
    assert_eq!(b1.combined_score(), 778_333_333_333_333_333);
    assert_eq!(b2.combined_score(), 469_880_952_380_952_380);
}

#[test]
fn combined_clamps_artifact() {
    let low = node("L", "0.0.0", -5, vec![]);
    assert_eq!(low.combined_score(), 250_000_000_000_000_000);
    let high = node("H", "0.0.0", 2_000_000_000_000_000_000, vec![]);
    assert_eq!(high.combined_score(), 550_000_000_000_000_000);
    let top = node("T", "0.0.0", SCALE as i128, vec![]);
    assert_eq!(top.combined_score(), 550_000_000_000_000_000);
}

#[test]
fn combined_never_drops_when_a_signal_rises() {
    let base = node("N", "1.0.0", 400_000_000_000_000_000, vec![Vote::Nil]);
    let more_artifact = node("N", "1.0.0", 600_000_000_000_000_000, vec![Vote::Nil]);
    let more_votes = node("N", "1.0.0", 400_000_000_000_000_000, vec![Vote::Yes]);
    let newer = node("N", "3.0.0", 400_000_000_000_000_000, vec![Vote::Nil]);
    assert!(more_artifact.combined_score() >= base.combined_score());
    assert!(more_votes.combined_score() >= base.combined_score());
    assert!(newer.combined_score() >= base.combined_score());
    assert!(more_artifact.combined_score() > base.combined_score());
}

#[test]
fn one_raised_vote_shows_among_millions() {
    let count = 3_000_000;
    let all_no = node("A", "1.0.0", 0, vec![Vote::No; count]);
    let mut votes = vec![Vote::No; count];
    votes[count - 1] = Vote::Nil;
    let one_nil = node("A", "1.0.0", 0, votes);
    assert_eq!(all_no.consensus_score(), 0);
    assert_eq!(one_nil.consensus_score(), 166_666_666_666);
    votes = vec![Vote::Nil; count];
    votes[0] = Vote::Yes;
    let one_yes = node("A", "1.0.0", 0, votes);
    let all_nil = node("A", "1.0.0", 0, vec![Vote::Nil; count]);
    assert!(one_yes.consensus_score() > all_nil.consensus_score());
}
