use quorum_proxy::exchange::{FailureKind, NodeOutcome};
use quorum_proxy::tally::{quorum_of, tally_outcomes, Tally};

fn ok(text: &str) -> NodeOutcome {
    NodeOutcome::Response(text.to_string())
}

fn failed(kind: FailureKind) -> NodeOutcome {
    NodeOutcome::Failure(kind)
}

#[test]
fn majority_of_three_nodes() {
    let outcomes = vec![ok("{\"v\":1}"), ok("{\"v\":1}"), ok("{\"v\":2}")];
    assert_eq!(quorum_of(&outcomes, "{}"), "{\"v\":1}");
}

#[test]
fn majority_wins_when_minority_comes_first() {
    let outcomes = vec![ok("{\"v\":2}"), ok("{\"v\":1}"), ok("{\"v\":1}")];
    assert_eq!(quorum_of(&outcomes, "{}"), "{\"v\":1}");
}

#[test]
fn no_nodes_gives_default() {
    let outcomes: Vec<NodeOutcome> = Vec::new();
    assert_eq!(quorum_of(&outcomes, "{}"), "{}");
}

#[test]
fn all_nodes_failing_gives_default() {
    let outcomes = vec![
        failed(FailureKind::InvalidAddress),
        failed(FailureKind::ConnectFailed),
        failed(FailureKind::ConnectTimeout),
        failed(FailureKind::SendFailed),
        failed(FailureKind::ReceiveFailed),
        failed(FailureKind::EncodingFailed),
    ];
    assert_eq!(quorum_of(&outcomes, "{}"), "{}");
    assert_eq!(tally_outcomes(&outcomes).len(), 0);
}

#[test]
fn unanimous_nodes_give_their_text() {
    for n in 1..8usize {
        let outcomes: Vec<NodeOutcome> = (0..n).map(|_| ok("same")).collect();
        assert_eq!(quorum_of(&outcomes, "{}"), "same");
    }
}

#[test]
fn largest_group_wins() {
    let outcomes = vec![ok("a"), ok("b"), ok("c"), ok("b"), ok("a"), ok("b")];
    assert_eq!(quorum_of(&outcomes, "{}"), "b");
}

#[test]
fn tie_goes_to_text_seen_first() {
    let outcomes = vec![ok("x"), ok("y"), ok("y"), ok("x")];
    assert_eq!(quorum_of(&outcomes, "{}"), "x");
    let swapped = vec![ok("y"), ok("x"), ok("y"), ok("x")];
    assert_eq!(quorum_of(&swapped, "{}"), "y");
}

#[test]
fn failures_carry_no_weight() {
    let outcomes = vec![
        failed(FailureKind::ConnectFailed),
        ok("b"),
        failed(FailureKind::ConnectFailed),
        failed(FailureKind::ConnectFailed),
        ok("a"),
        ok("a"),
    ];
    assert_eq!(quorum_of(&outcomes, "{}"), "a");
}

#[test]
fn single_response_among_failures_wins() {
    let outcomes = vec![failed(FailureKind::EncodingFailed), ok("only")];
    assert_eq!(quorum_of(&outcomes, "{}"), "only");
}

#[test]
fn unique_texts_each_count_once() {
    let n: usize = 16;
    let outcomes: Vec<NodeOutcome> = (0..n).map(|i| ok(&format!("node-{}", i))).collect();
    let tally = tally_outcomes(&outcomes);
    assert_eq!(tally.len(), n);
    for i in 0..n {
        assert_eq!(tally.count_of(&format!("node-{}", i)), 1);
    }
    assert_eq!(tally.count_of(&"node-99".to_string()), 0);
}

#[test]
fn tally_counts_each_text() {
    let mut tally = Tally::new();
    assert_eq!(tally.len(), 0);
    assert_eq!(tally.winner("{}"), "{}");
    tally.record(&ok("a"));
    tally.record(&failed(FailureKind::SendFailed));
    tally.record(&ok("b"));
    tally.record(&ok("a"));
    assert_eq!(tally.len(), 2);
    assert_eq!(tally.count_of(&"a".to_string()), 2);
    assert_eq!(tally.count_of(&"b".to_string()), 1);
    assert_eq!(tally.winner("{}"), "a");
}

#[test]
fn empty_text_is_a_valid_answer() {
    let outcomes = vec![ok(""), ok(""), ok("x")];
    assert_eq!(quorum_of(&outcomes, "{}"), "");
}
