//! One person's running totals, and the sentence that reports them.
use crate::number::{decimal, push_decimal};
use vstd::prelude::*;

verus! {

/// What is known of one person: the sum of the scores, and how many
/// tests were completed and how many missed.
pub struct Tally {
    pub total: int,
    pub completed: nat,
    pub missed: nat,
}

impl Tally {
    /// Nothing recorded yet.
    pub open spec fn zero() -> Tally {
        Tally { total: 0, completed: 0, missed: 0 }
    }

    /// After one more completed test with the given score.
    pub open spec fn scored(self, score: int) -> Tally {
        Tally { total: self.total + score, completed: self.completed + 1, missed: self.missed }
    }

    /// After one more missed test.
    pub open spec fn missed_one(self) -> Tally {
        Tally { total: self.total, completed: self.completed, missed: self.missed + 1 }
    }
}

/// A number of tests in words: `1 test`, and otherwise the number and
/// `tests`.
pub open spec fn count_clause(n: nat) -> Seq<char> {
    if n == 1 {
        "1 test"@
    } else {
        decimal(n as int) + " tests"@
    }
}

/// The sentence that reports a tally.
pub open spec fn report(tally: Tally) -> Seq<char> {
    count_clause(tally.completed) + " with a total score of "@ + decimal(tally.total)
        + ". They missed "@ + count_clause(tally.missed)
}

/// The running totals of one person.
///
/// The sum is kept in 128 bits, which hold the sum of as many scores of
/// 64 bits as the counter of completed tests can count.
#[derive(Debug, Clone, Copy)]
pub struct ScoreStruct {
    total: i128,
    tests: u64,
    missed: u64,
}

impl View for ScoreStruct {
    type V = Tally;

    closed spec fn view(&self) -> Tally {
        Tally { total: self.total as int, completed: self.tests as nat, missed: self.missed as nat }
    }
}

impl ScoreStruct {
    /// The sum lies within what that many scores of 64 bits can add up to.
    #[verifier::type_invariant]
    spec fn bounded(&self) -> bool {
        -0x8000_0000_0000_0000 * self.tests <= self.total <= 0x7fff_ffff_ffff_ffff * self.tests
    }

    /// Totals with nothing recorded.
    pub fn new() -> (stats: Self)
        ensures
            stats@ == Tally::zero(),
    {
        ScoreStruct { total: 0, tests: 0, missed: 0 }
    }

    /// Records a completed test with its score.
    pub fn add_score(&mut self, score: i64)
        requires
            old(self)@.completed < u64::MAX,
        ensures
            final(self)@ == old(self)@.scored(score as int),
    {
        proof {
            use_type_invariant(&*self);
        }
        self.tests += 1;
        self.total += score as i128;
    }

    /// Records a missed test.
    pub fn missed_test(&mut self)
        requires
            old(self)@.missed < u64::MAX,
        ensures
            final(self)@ == old(self)@.missed_one(),
    {
        proof {
            use_type_invariant(&*self);
        }
        self.missed += 1;
    }

    /// The sentence that reports these totals, with `test` in the
    /// singular where the count is one.
    pub fn render(&self) -> (out: String)
        ensures
            out@ == report(self@),
    {
        let mut out = String::new();
        push_count(&mut out, self.tests);
        out.append(" with a total score of ");
        push_decimal(&mut out, self.total);
        out.append(". They missed ");
        push_count(&mut out, self.missed);
        out
    }

    /// The sum of the scores.
    pub fn total(&self) -> (total: i128)
        ensures
            total == self@.total,
    {
        self.total
    }

    /// How many tests were completed.
    pub fn tests_completed(&self) -> (count: u64)
        ensures
            count == self@.completed,
    {
        self.tests
    }

    /// How many tests were missed.
    pub fn tests_missed(&self) -> (count: u64)
        ensures
            count == self@.missed,
    {
        self.missed
    }
}

impl Default for ScoreStruct {
    fn default() -> (stats: Self)
        ensures
            stats@ == Tally::zero(),
    {
        ScoreStruct::new()
    }
}

/// Appends a number of tests in words to `out`.
fn push_count(out: &mut String, n: u64)
    ensures
        final(out)@ == old(out)@ + count_clause(n as nat),
{
    if n == 1 {
        out.append("1 test");
    } else {
        push_decimal(out, n as i128);
        out.append(" tests");
    }
}

} // verus!
