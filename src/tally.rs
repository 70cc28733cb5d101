//! Tallying node outcomes and choosing the answer the most nodes agree on.
//!
//! Outcomes are tallied in the order of the configured node list, so the
//! tally lists each distinct text where it first appeared. A tie between the
//! largest groups goes to the text whose first supporting node comes first in
//! that list: the choice depends on the outcomes alone, never on timing.
use vstd::prelude::*;
use crate::exchange::NodeOutcome;

verus! {

/// One entry per distinct response text, with the number of nodes that
/// returned it.
pub type TallyEntries = Seq<(Seq<char>, nat)>;

/// How many nodes returned the text `text` (the first entry that holds it).
pub open spec fn count_in(t: TallyEntries, text: Seq<char>) -> nat
    decreases t.len(),
{
    if t.len() == 0 {
        0
    } else if t[0].0 == text {
        t[0].1
    } else {
        count_in(t.skip(1), text)
    }
}

/// The tally after one more node returned `text`: its entry counts one more,
/// or a new entry with count one is added at the end.
pub open spec fn bump(t: TallyEntries, text: Seq<char>) -> TallyEntries
    decreases t.len(),
{
    if t.len() == 0 {
        seq![(text, 1nat)]
    } else if t[0].0 == text {
        t.update(0, (text, t[0].1 + 1))
    } else {
        seq![t[0]] + bump(t.skip(1), text)
    }
}

/// The tally after one more outcome; a failure leaves it as it was.
pub open spec fn record_outcome(t: TallyEntries, outcome: NodeOutcome) -> TallyEntries {
    match outcome {
        NodeOutcome::Response(text) => bump(t, text@),
        NodeOutcome::Failure(_) => t,
    }
}

/// The tally of a list of outcomes, taken in order.
pub open spec fn tally_of(outcomes: Seq<NodeOutcome>) -> TallyEntries
    decreases outcomes.len(),
{
    if outcomes.len() == 0 {
        Seq::empty()
    } else {
        record_outcome(tally_of(outcomes.drop_last()), outcomes.last())
    }
}

/// Whether the outcome is a response with text `text`.
pub open spec fn supports(outcome: NodeOutcome, text: Seq<char>) -> bool {
    outcome matches NodeOutcome::Response(s) && s@ == text
}

/// The number of outcomes that are a response with text `text`.
pub open spec fn support(outcomes: Seq<NodeOutcome>, text: Seq<char>) -> nat
    decreases outcomes.len(),
{
    if outcomes.len() == 0 {
        0
    } else {
        support(outcomes.drop_last(), text) + if supports(outcomes.last(), text) {
            1nat
        } else {
            0nat
        }
    }
}

/// Each text has at most one entry, and each entry counts at least one node.
pub open spec fn well_formed(t: TallyEntries) -> bool {
    &&& forall|i: int, j: int| 0 <= i < j < t.len() ==> #[trigger] t[i].0 != #[trigger] t[j].0
    &&& forall|i: int| 0 <= i < t.len() ==> #[trigger] t[i].1 >= 1
}

/// Entry `i` wins: no entry has a larger count, and every entry before it
/// has a smaller one.
pub open spec fn is_winner(t: TallyEntries, i: int) -> bool {
    &&& 0 <= i < t.len()
    &&& forall|j: int| 0 <= j < t.len() ==> #[trigger] t[j].1 <= t[i].1
    &&& forall|j: int| 0 <= j < i ==> #[trigger] t[j].1 < t[i].1
}

/// The index of the winning entry of a non-empty tally.
pub open spec fn winner_index(t: TallyEntries) -> int {
    choose|i: int| is_winner(t, i)
}

/// The answer chosen for these outcomes: the winning text, or `default`
/// where no node returned a response.
pub open spec fn quorum(outcomes: Seq<NodeOutcome>, default: Seq<char>) -> Seq<char> {
    let t = tally_of(outcomes);
    if t.len() == 0 {
        default
    } else {
        t[winner_index(t)].0
    }
}

proof fn lemma_winner_unique(t: TallyEntries, i: int)
    requires
        is_winner(t, i),
    ensures
        winner_index(t) == i,
{
    let w = winner_index(t);
    assert(is_winner(t, w));
    if w < i {
        assert(t[w].1 < t[i].1);
    } else if i < w {
        assert(t[i].1 < t[w].1);
    }
}

/// The entry that wins among the first `n` entries.
proof fn lemma_winner_of_prefix(t: TallyEntries, n: int) -> (best: int)
    requires
        0 < n <= t.len(),
    ensures
        0 <= best < n,
        forall|j: int| 0 <= j < n ==> #[trigger] t[j].1 <= t[best].1,
        forall|j: int| 0 <= j < best ==> #[trigger] t[j].1 < t[best].1,
    decreases n,
{
    if n == 1 {
        0
    } else {
        let prev = lemma_winner_of_prefix(t, n - 1);
        if t[n - 1].1 > t[prev].1 {
            n - 1
        } else {
            prev
        }
    }
}

proof fn lemma_bump_found(t: TallyEntries, text: Seq<char>, i: int)
    requires
        0 <= i < t.len(),
        t[i].0 == text,
        forall|j: int| 0 <= j < i ==> #[trigger] t[j].0 != text,
    ensures
        bump(t, text) == t.update(i, (text, t[i].1 + 1)),
        count_in(t, text) == t[i].1,
    decreases t.len(),
{
    if i > 0 {
        assert(t[0].0 != text);
        let rest = t.skip(1);
        assert forall|j: int| 0 <= j < i - 1 implies #[trigger] rest[j].0 != text by {
            assert(rest[j] == t[j + 1]);
        }
        lemma_bump_found(rest, text, i - 1);
        assert(seq![t[0]] + rest.update(i - 1, (text, t[i].1 + 1)) =~= t.update(
            i,
            (text, t[i].1 + 1),
        ));
    }
}

proof fn lemma_bump_absent(t: TallyEntries, text: Seq<char>)
    requires
        forall|j: int| 0 <= j < t.len() ==> #[trigger] t[j].0 != text,
    ensures
        bump(t, text) == t.push((text, 1nat)),
        count_in(t, text) == 0,
    decreases t.len(),
{
    if t.len() > 0 {
        assert(t[0].0 != text);
        let rest = t.skip(1);
        assert forall|j: int| 0 <= j < rest.len() implies #[trigger] rest[j].0 != text by {
            assert(rest[j] == t[j + 1]);
        }
        lemma_bump_absent(rest, text);
        assert(seq![t[0]] + rest.push((text, 1nat)) =~= t.push((text, 1nat)));
    }
}

/// In a well-formed tally an entry's count is the count of its text, and a
/// text without an entry counts zero.
proof fn lemma_count_in_well_formed(t: TallyEntries, text: Seq<char>)
    requires
        well_formed(t),
    ensures
        forall|i: int| 0 <= i < t.len() && t[i].0 == text ==> count_in(t, text) == #[trigger] t[i].1,
        (forall|j: int| 0 <= j < t.len() ==> #[trigger] t[j].0 != text) ==> count_in(t, text) == 0,
{
    assert forall|i: int| 0 <= i < t.len() && t[i].0 == text implies count_in(t, text)
        == #[trigger] t[i].1 by {
        assert forall|j: int| 0 <= j < i implies #[trigger] t[j].0 != text by {
            assert(t[j].0 != t[i].0);
        }
        lemma_bump_found(t, text, i);
    }
    if forall|j: int| 0 <= j < t.len() ==> #[trigger] t[j].0 != text {
        lemma_bump_absent(t, text);
    }
}

/// Recording a response keeps the tally well formed, counts its text once
/// more and leaves every other count as it was.
proof fn lemma_bump_well_formed(t: TallyEntries, text: Seq<char>)
    requires
        well_formed(t),
    ensures
        well_formed(bump(t, text)),
        forall|other: Seq<char>|
            #[trigger] count_in(bump(t, text), other) == count_in(t, other) + if other == text {
                1nat
            } else {
                0nat
            },
{
    let b = bump(t, text);
    if exists|i: int| 0 <= i < t.len() && t[i].0 == text {
        let i = choose|i: int| 0 <= i < t.len() && t[i].0 == text;
        assert forall|j: int| 0 <= j < i implies #[trigger] t[j].0 != text by {
            assert(t[j].0 != t[i].0);
        }
        lemma_bump_found(t, text, i);
        assert forall|x: int, y: int| 0 <= x < y < b.len() implies #[trigger] b[x].0
            != #[trigger] b[y].0 by {
            assert(t[x].0 != t[y].0);
        }
        assert(well_formed(b));
        assert forall|other: Seq<char>| #[trigger]
            count_in(b, other) == count_in(t, other) + if other == text {
                1nat
            } else {
                0nat
            } by {
            lemma_count_in_well_formed(t, other);
            lemma_count_in_well_formed(b, other);
            if other != text {
                if exists|m: int| 0 <= m < t.len() && t[m].0 == other {
                    let m = choose|m: int| 0 <= m < t.len() && t[m].0 == other;
                    assert(b[m] == t[m]);
                    assert(count_in(t, other) == t[m].1);
                    assert(count_in(b, other) == b[m].1);
                } else {
                    assert forall|m: int| 0 <= m < t.len() implies #[trigger] t[m].0 != other by {}
                    assert(count_in(t, other) == 0);
                    assert forall|m: int| 0 <= m < b.len() implies #[trigger] b[m].0 != other by {
                        if m != i {
                            assert(b[m] == t[m]);
                        }
                    }
                    assert(count_in(b, other) == 0);
                }
            } else {
                assert(b[i].1 == t[i].1 + 1);
                assert(count_in(t, other) == t[i].1);
                assert(count_in(b, other) == b[i].1);
            }
        }
    } else {
        lemma_bump_absent(t, text);
        assert forall|x: int, y: int| 0 <= x < y < b.len() implies #[trigger] b[x].0
            != #[trigger] b[y].0 by {
            if y == t.len() {
                assert(t[x].0 != text);
            } else {
                assert(t[x].0 != t[y].0);
            }
        }
        assert(well_formed(b));
        assert forall|other: Seq<char>| #[trigger]
            count_in(b, other) == count_in(t, other) + if other == text {
                1nat
            } else {
                0nat
            } by {
            lemma_count_in_well_formed(t, other);
            lemma_count_in_well_formed(b, other);
            if other != text {
                if exists|m: int| 0 <= m < t.len() && t[m].0 == other {
                    let m = choose|m: int| 0 <= m < t.len() && t[m].0 == other;
                    assert(b[m] == t[m]);
                    assert(count_in(t, other) == t[m].1);
                    assert(count_in(b, other) == b[m].1);
                } else {
                    assert forall|m: int| 0 <= m < t.len() implies #[trigger] t[m].0 != other by {}
                    assert(count_in(t, other) == 0);
                    assert forall|m: int| 0 <= m < b.len() implies #[trigger] b[m].0 != other by {
                        if m < t.len() {
                            assert(b[m] == t[m]);
                        }
                    }
                    assert(count_in(b, other) == 0);
                }
            } else {
                let n = t.len() as int;
                assert(b[n].0 == text);
                assert(count_in(t, other) == 0);
                assert(count_in(b, other) == b[n].1);
            }
        }
    }
}

/// The tally of any outcomes is well formed, and counts for each text
/// exactly the nodes that returned it: no response is lost or counted twice,
/// whatever the order in which outcomes came.
pub proof fn lemma_tally_counts_support(outcomes: Seq<NodeOutcome>)
    ensures
        well_formed(tally_of(outcomes)),
        forall|text: Seq<char>| #[trigger] count_in(tally_of(outcomes), text) == support(outcomes, text),
    decreases outcomes.len(),
{
    if outcomes.len() > 0 {
        let prev = outcomes.drop_last();
        lemma_tally_counts_support(prev);
        match outcomes.last() {
            NodeOutcome::Response(s) => {
                lemma_bump_well_formed(tally_of(prev), s@);
            },
            NodeOutcome::Failure(_) => {},
        }
    }
}

/// The tally of one distribution call: each distinct response text with the
/// number of nodes that returned it, in the order the texts first appeared.
pub struct Tally {
    entries: Vec<(String, usize)>,
}

impl View for Tally {
    type V = TallyEntries;

    closed spec fn view(&self) -> TallyEntries {
        self.entries@.map_values(|e: (String, usize)| (e.0@, e.1 as nat))
    }
}

impl Tally {
    pub fn new() -> (r: Tally)
        ensures
            r@ == Seq::<(Seq<char>, nat)>::empty(),
    {
        let r = Tally { entries: Vec::new() };
        assert(r@ =~= Seq::<(Seq<char>, nat)>::empty());
        r
    }

    /// The number of distinct texts.
    pub fn len(&self) -> (r: usize)
        ensures
            r == self@.len(),
    {
        self.entries.len()
    }

    /// The number of nodes that returned `text`.
    pub fn count_of(&self, text: &String) -> (r: usize)
        ensures
            r == count_in(self@, text@),
    {
        let mut i: usize = 0;
        while i < self.entries.len()
            invariant
                i <= self@.len(),
                self@.len() == self.entries@.len(),
                forall|j: int| 0 <= j < i ==> #[trigger] self@[j].0 != text@,
            decreases self@.len() - i,
        {
            if self.entries[i].0 == *text {
                proof {
                    lemma_bump_found(self@, text@, i as int);
                    assert(self@[i as int].1 == self.entries@[i as int].1 as nat);
                }
                return self.entries[i].1;
            }
            i = i + 1;
        }
        proof {
            lemma_bump_absent(self@, text@);
        }
        0
    }

    /// Adds one node's outcome: a response counts once more for its text,
    /// a failure changes nothing.
    pub fn record(&mut self, outcome: &NodeOutcome)
        requires
            outcome matches NodeOutcome::Response(text) ==> count_in(old(self)@, text@) < usize::MAX,
        ensures
            final(self)@ == record_outcome(old(self)@, *outcome),
    {
        match outcome {
            NodeOutcome::Failure(_) => {},
            NodeOutcome::Response(text) => {
                let ghost t = self@;
                let mut i: usize = 0;
                while i < self.entries.len() && self.entries[i].0 != *text
                    invariant
                        self@ == t,
                        i <= t.len(),
                        t.len() == self.entries@.len(),
                        forall|j: int| 0 <= j < i ==> #[trigger] t[j].0 != text@,
                    decreases t.len() - i,
                {
                    i = i + 1;
                }
                if i < self.entries.len() {
                    proof {
                        lemma_bump_found(t, text@, i as int);
                        assert(t[i as int].1 == self.entries@[i as int].1 as nat);
                    }
                    let count = self.entries[i].1;
                    self.entries.set(i, (text.clone(), count + 1));
                    assert(self@ =~= t.update(i as int, (text@, t[i as int].1 + 1)));
                } else {
                    proof {
                        lemma_bump_absent(t, text@);
                    }
                    self.entries.push((text.clone(), 1));
                    assert(self@ =~= t.push((text@, 1nat)));
                }
            },
        }
    }

    /// The winning text: the one with the highest count, the earliest among
    /// equal counts; `default` when the tally is empty.
    pub fn winner(&self, default: &str) -> (r: String)
        ensures
            self@.len() == 0 ==> r@ == default@,
            self@.len() > 0 ==> r@ == self@[winner_index(self@)].0,
    {
        if self.entries.len() == 0 {
            return default.to_owned();
        }
        let mut best: usize = 0;
        let mut i: usize = 1;
        while i < self.entries.len()
            invariant
                self@.len() == self.entries@.len(),
                0 <= best < i <= self@.len(),
                forall|j: int| 0 <= j < i ==> #[trigger] self@[j].1 <= self@[best as int].1,
                forall|j: int| 0 <= j < best ==> #[trigger] self@[j].1 < self@[best as int].1,
            decreases self@.len() - i,
        {
            if self.entries[i].1 > self.entries[best].1 {
                best = i;
            }
            i = i + 1;
        }
        proof {
            lemma_winner_unique(self@, best as int);
        }
        self.entries[best].0.clone()
    }
}

/// The tally of the outcomes, recorded in their order.
pub fn tally_outcomes(outcomes: &Vec<NodeOutcome>) -> (r: Tally)
    ensures
        r@ == tally_of(outcomes@),
{
    let mut tally = Tally::new();
    let mut i: usize = 0;
    while i < outcomes.len()
        invariant
            i <= outcomes@.len(),
            tally@ == tally_of(outcomes@.subrange(0, i as int)),
        decreases outcomes@.len() - i,
    {
        let ghost prefix = outcomes@.subrange(0, i as int);
        proof {
            lemma_tally_counts_support(prefix);
            if outcomes@[i as int] is Response {
                lemma_support_bound(prefix, outcomes@[i as int]->Response_0@);
            }
        }
        tally.record(&outcomes[i]);
        assert(outcomes@.subrange(0, i + 1).drop_last() =~= prefix);
        i = i + 1;
    }
    assert(outcomes@.subrange(0, outcomes@.len() as int) =~= outcomes@);
    tally
}

/// The answer for a distribution call: the response text returned by the
/// most nodes, with ties going to the text seen first in node order, or
/// `default` when no node responded.
pub fn quorum_of(outcomes: &Vec<NodeOutcome>, default: &str) -> (r: String)
    ensures
        r@ == quorum(outcomes@, default@),
{
    let tally = tally_outcomes(outcomes);
    tally.winner(default)
}

proof fn lemma_support_bound(outcomes: Seq<NodeOutcome>, text: Seq<char>)
    ensures
        support(outcomes, text) <= outcomes.len(),
    decreases outcomes.len(),
{
    if outcomes.len() > 0 {
        lemma_support_bound(outcomes.drop_last(), text);
    }
}

proof fn lemma_support_disjoint(outcomes: Seq<NodeOutcome>, a: Seq<char>, b: Seq<char>)
    requires
        a != b,
    ensures
        support(outcomes, a) + support(outcomes, b) <= outcomes.len(),
    decreases outcomes.len(),
{
    if outcomes.len() > 0 {
        lemma_support_disjoint(outcomes.drop_last(), a, b);
    }
}

proof fn lemma_support_none(outcomes: Seq<NodeOutcome>, text: Seq<char>)
    requires
        forall|i: int| 0 <= i < outcomes.len() ==> !supports(#[trigger] outcomes[i], text),
    ensures
        support(outcomes, text) == 0,
    decreases outcomes.len(),
{
    if outcomes.len() > 0 {
        let prev = outcomes.drop_last();
        assert forall|i: int| 0 <= i < prev.len() implies !supports(#[trigger] prev[i], text) by {
            assert(prev[i] == outcomes[i]);
        }
        lemma_support_none(prev, text);
    }
}

/// The chosen answer is a text that the most nodes returned: no other text
/// has more support. Where no node responded, it is `default`.
pub proof fn lemma_quorum_has_most_support(outcomes: Seq<NodeOutcome>, default: Seq<char>)
    ensures
        tally_of(outcomes).len() > 0 ==> support(outcomes, quorum(outcomes, default)) > 0,
        tally_of(outcomes).len() > 0 ==> forall|text: Seq<char>|
            #[trigger] support(outcomes, text) <= support(outcomes, quorum(outcomes, default)),
        tally_of(outcomes).len() == 0 ==> quorum(outcomes, default) == default,
{
    let t = tally_of(outcomes);
    lemma_tally_counts_support(outcomes);
    if t.len() > 0 {
        let best = lemma_winner_of_prefix(t, t.len() as int);
        lemma_winner_unique(t, best);
        let q = t[best].0;
        lemma_count_in_well_formed(t, q);
        assert(count_in(t, q) == t[best].1);
        assert forall|text: Seq<char>| #[trigger] support(outcomes, text) <= support(
            outcomes,
            quorum(outcomes, default),
        ) by {
            lemma_count_in_well_formed(t, text);
            if exists|m: int| 0 <= m < t.len() && t[m].0 == text {
                let m = choose|m: int| 0 <= m < t.len() && t[m].0 == text;
                assert(count_in(t, text) == t[m].1);
            } else {
                assert forall|m: int| 0 <= m < t.len() implies #[trigger] t[m].0 != text by {}
            }
        }
    }
}

/// A text returned by strictly more nodes than any other text is the answer.
pub proof fn lemma_strict_plurality_wins(
    outcomes: Seq<NodeOutcome>,
    default: Seq<char>,
    text: Seq<char>,
)
    requires
        forall|other: Seq<char>| other != text ==> #[trigger] support(outcomes, other) < support(
            outcomes,
            text,
        ),
    ensures
        quorum(outcomes, default) == text,
{
    let t = tally_of(outcomes);
    lemma_tally_counts_support(outcomes);
    lemma_count_in_well_formed(t, text);
    assert(support(outcomes, text) > 0) by {
        assert(support(outcomes, text + seq!['x']) < support(outcomes, text));
    }
    if t.len() == 0 {
        assert(count_in(t, text) == 0);
    }
    lemma_quorum_has_most_support(outcomes, default);
    let q = quorum(outcomes, default);
    if q != text {
        assert(support(outcomes, q) < support(outcomes, text));
    }
}

/// When every node returns the same text, that text is the answer, whatever
/// the number of nodes.
pub proof fn lemma_unanimous(outcomes: Seq<NodeOutcome>, default: Seq<char>, text: Seq<char>)
    requires
        outcomes.len() > 0,
        forall|i: int| 0 <= i < outcomes.len() ==> supports(#[trigger] outcomes[i], text),
    ensures
        quorum(outcomes, default) == text,
{
    lemma_support_all(outcomes, text);
    assert forall|other: Seq<char>| other != text implies #[trigger] support(outcomes, other)
        < support(outcomes, text) by {
        lemma_support_disjoint(outcomes, text, other);
    }
    lemma_strict_plurality_wins(outcomes, default, text);
}

proof fn lemma_support_all(outcomes: Seq<NodeOutcome>, text: Seq<char>)
    requires
        forall|i: int| 0 <= i < outcomes.len() ==> supports(#[trigger] outcomes[i], text),
    ensures
        support(outcomes, text) == outcomes.len(),
    decreases outcomes.len(),
{
    if outcomes.len() > 0 {
        let prev = outcomes.drop_last();
        assert forall|i: int| 0 <= i < prev.len() implies supports(#[trigger] prev[i], text) by {
            assert(prev[i] == outcomes[i]);
        }
        lemma_support_all(prev, text);
    }
}

/// When no node returns a response, the tally stays empty and the answer is
/// `default`.
pub proof fn lemma_all_failed(outcomes: Seq<NodeOutcome>, default: Seq<char>)
    requires
        forall|i: int| 0 <= i < outcomes.len() ==> (#[trigger] outcomes[i]) is Failure,
    ensures
        tally_of(outcomes).len() == 0,
        quorum(outcomes, default) == default,
    decreases outcomes.len(),
{
    if outcomes.len() > 0 {
        let prev = outcomes.drop_last();
        assert forall|i: int| 0 <= i < prev.len() implies (#[trigger] prev[i]) is Failure by {
            assert(prev[i] == outcomes[i]);
        }
        lemma_all_failed(prev, default);
        assert(outcomes[outcomes.len() - 1] is Failure);
    }
}

/// When every node returns a text of its own, the tally holds one entry per
/// node, each with count one.
pub proof fn lemma_distinct_responses(outcomes: Seq<NodeOutcome>)
    requires
        forall|i: int| 0 <= i < outcomes.len() ==> (#[trigger] outcomes[i]) is Response,
        forall|i: int, j: int|
            0 <= i < j < outcomes.len() ==> (#[trigger] outcomes[i])->Response_0@
                != (#[trigger] outcomes[j])->Response_0@,
    ensures
        tally_of(outcomes).len() == outcomes.len(),
        forall|i: int| 0 <= i < outcomes.len() ==> #[trigger] tally_of(outcomes)[i].1 == 1,
        forall|i: int|
            0 <= i < outcomes.len() ==> #[trigger] count_in(
                tally_of(outcomes),
                outcomes[i]->Response_0@,
            ) == 1,
    decreases outcomes.len(),
{
    lemma_tally_counts_support(outcomes);
    if outcomes.len() > 0 {
        let n = outcomes.len() - 1;
        let prev = outcomes.drop_last();
        assert forall|i: int| 0 <= i < prev.len() implies (#[trigger] prev[i]) is Response by {
            assert(prev[i] == outcomes[i]);
        }
        assert forall|i: int, j: int| 0 <= i < j < prev.len() implies (#[trigger] prev[i])->Response_0@
            != (#[trigger] prev[j])->Response_0@ by {
            assert(prev[i] == outcomes[i]);
            assert(prev[j] == outcomes[j]);
        }
        lemma_distinct_responses(prev);
        lemma_tally_counts_support(prev);
        let t = tally_of(prev);
        let text = outcomes[n]->Response_0@;
        assert forall|i: int| 0 <= i < prev.len() implies !supports(#[trigger] prev[i], text) by {
            assert(prev[i] == outcomes[i]);
            assert(outcomes[i]->Response_0@ != outcomes[n]->Response_0@);
        }
        lemma_support_none(prev, text);
        lemma_count_in_well_formed(t, text);
        assert forall|j: int| 0 <= j < t.len() implies #[trigger] t[j].0 != text by {
            if t[j].0 == text {
                assert(count_in(t, text) == t[j].1);
            }
        }
        lemma_bump_absent(t, text);
        assert(tally_of(outcomes) == t.push((text, 1nat)));
        assert forall|i: int| 0 <= i < outcomes.len() implies #[trigger] count_in(
            tally_of(outcomes),
            outcomes[i]->Response_0@,
        ) == 1 by {
            let k = outcomes[i]->Response_0@;
            if i < n {
                assert(prev[i] == outcomes[i]);
                assert(count_in(t, k) == 1);
                assert(support(prev, k) == 1);
                assert(k != text);
            }
            assert(support(outcomes, k) == support(prev, k) + if supports(outcomes[n], k) {
                1nat
            } else {
                0nat
            });
            if i == n {
                assert(supports(outcomes[n], k));
            } else {
                assert(!supports(outcomes[n], k));
            }
        }
    }
}

} // verus!
