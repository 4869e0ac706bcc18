//! The scoreboard: one entry per person, in the order in which the
//! persons first appear.
use crate::score::{records, Record, Score};
use crate::stats::{report, ScoreStruct, Tally};
use vstd::prelude::*;
use vstd::seq_lib::{to_multiset_build, to_multiset_contains, to_multiset_len, to_multiset_remove};

verus! {

/// The tally after a record about that person.
pub open spec fn apply(tally: Tally, record: Record) -> Tally {
    match record {
        Record::Missed { .. } => tally.missed_one(),
        Record::Scored { score, .. } => tally.scored(score),
    }
}

/// The tally of `name` over `records`: every record about `name` counts,
/// every other record changes nothing.
pub open spec fn tally_of(records: Seq<Record>, name: Seq<char>) -> Tally
    decreases records.len(),
{
    if records.len() == 0 {
        Tally::zero()
    } else if records.last().name() == name {
        apply(tally_of(records.drop_last(), name), records.last())
    } else {
        tally_of(records.drop_last(), name)
    }
}

/// Whether some record is about `name`.
pub open spec fn occurs(records: Seq<Record>, name: Seq<char>) -> bool {
    exists|i: int| 0 <= i < records.len() && (#[trigger] records[i]).name() == name
}

/// The records about `name`, in their order.
pub open spec fn own_records(records: Seq<Record>, name: Seq<char>) -> Seq<Record>
    decreases records.len(),
{
    if records.len() == 0 {
        Seq::empty()
    } else if records.last().name() == name {
        own_records(records.drop_last(), name).push(records.last())
    } else {
        own_records(records.drop_last(), name)
    }
}

/// The names of `records`, each once, in the order of first appearance.
pub open spec fn first_seen(records: Seq<Record>) -> Seq<Seq<char>>
    decreases records.len(),
{
    if records.len() == 0 {
        Seq::empty()
    } else {
        let before = first_seen(records.drop_last());
        if before.contains(records.last().name()) {
            before
        } else {
            before.push(records.last().name())
        }
    }
}

/// The scoreboard of `records`: each person in the order of first
/// appearance, with the tally over all records.
pub open spec fn summary(records: Seq<Record>) -> Seq<(Seq<char>, Tally)> {
    first_seen(records).map_values(|name: Seq<char>| (name, tally_of(records, name)))
}

/// Where the first entry for `name` stands, or the number of entries if
/// there is none.
pub open spec fn position(entries: Seq<(Seq<char>, Tally)>, name: Seq<char>) -> int
    decreases entries.len(),
{
    if entries.len() == 0 || entries[0].0 == name {
        0
    } else {
        1 + position(entries.drop_first(), name)
    }
}

/// The tally that the entries hold for `name`, if any.
pub open spec fn lookup(entries: Seq<(Seq<char>, Tally)>, name: Seq<char>) -> Option<Tally> {
    if position(entries, name) < entries.len() {
        Some(entries[position(entries, name)].1)
    } else {
        None
    }
}

/// The entries after one more record: the entry of that person is looked
/// up, or made at the end with nothing recorded, and the record counts
/// there.
pub open spec fn step(entries: Seq<(Seq<char>, Tally)>, record: Record) -> Seq<(Seq<char>, Tally)> {
    let at = position(entries, record.name());
    if at < entries.len() {
        entries.update(at, (record.name(), apply(entries[at].1, record)))
    } else {
        entries.push((record.name(), apply(Tally::zero(), record)))
    }
}

/// No name is held twice.
pub open spec fn distinct(entries: Seq<(Seq<char>, Tally)>) -> bool {
    forall|i: int, j: int|
        0 <= i < j < entries.len() ==> (#[trigger] entries[i]).0 != (#[trigger] entries[j]).0
}

/// Whether the counter that `record` raises can still count one more.
pub open spec fn has_room(entries: Seq<(Seq<char>, Tally)>, record: Record) -> bool {
    lookup(entries, record.name()) matches Some(tally) ==> match record {
        Record::Missed { .. } => tally.missed < u64::MAX,
        Record::Scored { .. } => tally.completed < u64::MAX,
    }
}

/// The text of one line of the report.
pub open spec fn report_line(entry: (Seq<char>, Tally)) -> Seq<char> {
    entry.0 + " took "@ + report(entry.1)
}

/// `position` is `k` if no entry before `k` is for `name` and the entry
/// at `k`, if there is one, is.
pub proof fn lemma_position(entries: Seq<(Seq<char>, Tally)>, name: Seq<char>, k: int)
    requires
        0 <= k <= entries.len(),
        forall|i: int| 0 <= i < k ==> (#[trigger] entries[i]).0 != name,
        k < entries.len() ==> entries[k].0 == name,
    ensures
        position(entries, name) == k,
    decreases k,
{
    if k > 0 {
        let rest = entries.drop_first();
        assert forall|i: int| 0 <= i < k - 1 implies (#[trigger] rest[i]).0 != name by {
            assert(rest[i] == entries[i + 1]);
        }
        lemma_position(rest, name, k - 1);
    }
}

/// `position` stays within the entries, passes over no entry for `name`,
/// and stops at one.
pub proof fn lemma_position_first(entries: Seq<(Seq<char>, Tally)>, name: Seq<char>)
    ensures
        0 <= position(entries, name) <= entries.len(),
        forall|i: int| 0 <= i < position(entries, name) ==> (#[trigger] entries[i]).0 != name,
        position(entries, name) < entries.len() ==> entries[position(entries, name)].0 == name,
    decreases entries.len(),
{
    if entries.len() > 0 && entries[0].0 != name {
        let rest = entries.drop_first();
        lemma_position_first(rest, name);
        assert forall|i: int| 0 <= i < position(entries, name) implies (#[trigger] entries[i]).0
            != name by {
            if i > 0 {
                assert(rest[i - 1] == entries[i]);
            }
        }
    }
}

/// The persons of a scoreboard are those about whom there is a record,
/// and none of them stands twice.
pub proof fn lemma_first_seen(records: Seq<Record>)
    ensures
        first_seen(records).no_duplicates(),
        forall|name: Seq<char>| #[trigger] first_seen(records).contains(name) <==> occurs(records, name),
    decreases records.len(),
{
    if records.len() > 0 {
        let front = records.drop_last();
        let before = first_seen(front);
        lemma_first_seen(front);
        assert forall|name: Seq<char>| #[trigger]
            first_seen(records).contains(name) <==> occurs(records, name) by {
            if occurs(records, name) {
                let i = choose|i: int| 0 <= i < records.len() && (#[trigger] records[i]).name() == name;
                if i < front.len() {
                    assert(front[i].name() == name);
                    assert(before.contains(name));
                    let k = choose|k: int| 0 <= k < before.len() && before[k] == name;
                    assert(first_seen(records)[k] == name);
                } else if !before.contains(name) {
                    assert(first_seen(records)[before.len() as int] == name);
                }
            }
            if first_seen(records).contains(name) {
                let k = choose|k: int|
                    0 <= k < first_seen(records).len() && first_seen(records)[k] == name;
                if k < before.len() {
                    assert(before[k] == name);
                    assert(before.contains(name));
                    let i = choose|i: int| 0 <= i < front.len() && (#[trigger] front[i]).name() == name;
                    assert(records[i].name() == name);
                } else {
                    assert(records[records.len() - 1].name() == name);
                }
            }
        }
    }
}

/// A person without a record has nothing recorded.
pub proof fn lemma_tally_of_absent(records: Seq<Record>, name: Seq<char>)
    requires
        !occurs(records, name),
    ensures
        tally_of(records, name) == Tally::zero(),
    decreases records.len(),
{
    if records.len() > 0 {
        let front = records.drop_last();
        assert forall|i: int| 0 <= i < front.len() implies (#[trigger] front[i]).name() != name by {
            assert(front[i] == records[i]);
        }
        lemma_tally_of_absent(front, name);
    }
}

/// No person has more tests, completed and missed together, than there
/// are records.
pub proof fn lemma_tally_counts(records: Seq<Record>, name: Seq<char>)
    ensures
        tally_of(records, name).completed + tally_of(records, name).missed <= records.len(),
    decreases records.len(),
{
    if records.len() > 0 {
        lemma_tally_counts(records.drop_last(), name);
    }
}

/// What a scoreboard holds for a person: the tally over all records if
/// there is a record about that person, and no entry otherwise.
pub proof fn lemma_lookup_summary(records: Seq<Record>, name: Seq<char>)
    ensures
        lookup(summary(records), name) == if occurs(records, name) {
            Some(tally_of(records, name))
        } else {
            None
        },
        distinct(summary(records)),
{
    let names = first_seen(records);
    let entries = summary(records);
    lemma_first_seen(records);
    lemma_position_first(entries, name);
    if position(entries, name) < entries.len() {
        assert(names[position(entries, name)] == name);
        assert(names.contains(name));
    } else if names.contains(name) {
        let k = choose|k: int| 0 <= k < names.len() && names[k] == name;
        assert(entries[k].0 == name);
    }
    assert forall|i: int, j: int| 0 <= i < j < entries.len() implies (#[trigger] entries[i]).0 != (
    #[trigger] entries[j]).0 by {
        assert(entries[i].0 == names[i] && entries[j].0 == names[j]);
    }
}

/// Taking the records one by one gives the scoreboard of all of them.
pub proof fn lemma_step_summary(records: Seq<Record>, record: Record)
    ensures
        step(summary(records), record) == summary(records.push(record)),
{
    let name = record.name();
    let names = first_seen(records);
    let entries = summary(records);
    let longer = records.push(record);
    let at = position(entries, name);
    assert(longer.drop_last() == records);
    lemma_first_seen(records);
    lemma_position_first(entries, name);
    if at < entries.len() {
        // The person has an entry: no name is added, and only the tally
        // of that person changes.
        assert(names[at] == name);
        assert(names.contains(name));
        assert(first_seen(longer) == names);
    } else {
        // The person has none: nothing was recorded before.
        if names.contains(name) {
            let k = choose|k: int| 0 <= k < names.len() && names[k] == name;
            assert(entries[k].0 == name);
        }
        lemma_tally_of_absent(records, name);
        assert(first_seen(longer) == names.push(name));
    }
    assert(step(entries, record) =~= summary(longer));
}

/// One record leaves a sequence, and the tally of what is left is the
/// tally of the whole without that record.
pub proof fn lemma_tally_of_remove(records: Seq<Record>, k: int, name: Seq<char>)
    requires
        0 <= k < records.len(),
    ensures
        tally_of(records, name) == if records[k].name() == name {
            apply(tally_of(records.remove(k), name), records[k])
        } else {
            tally_of(records.remove(k), name)
        },
    decreases records.len(),
{
    let front = records.drop_last();
    if k == records.len() - 1 {
        assert(records.remove(k) == front);
    } else {
        lemma_tally_of_remove(front, k, name);
        assert(records.remove(k).drop_last() == front.remove(k));
    }
}

/// The order of the records does not matter to a tally: two sequences
/// that hold the same records as often give every person the same tally.
pub proof fn lemma_tally_of_permutation(a: Seq<Record>, b: Seq<Record>, name: Seq<char>)
    requires
        a.to_multiset() == b.to_multiset(),
    ensures
        tally_of(a, name) == tally_of(b, name),
    decreases a.len(),
{
    broadcast use vstd::multiset::group_multiset_axioms;

    if a.len() == 0 {
        to_multiset_len(a);
        to_multiset_len(b);
    } else {
        let last = a.last();
        let front = a.drop_last();
        to_multiset_contains(a, last);
        to_multiset_contains(b, last);
        let k = choose|k: int| 0 <= k < b.len() && b[k] == last;
        assert(front.push(last) == a);
        to_multiset_build(front, last);
        to_multiset_remove(b, k);
        assert(front.to_multiset() =~= a.to_multiset().remove(last));
        lemma_tally_of_permutation(front, b.remove(k), name);
        lemma_tally_of_remove(b, k, name);
    }
}

/// The tally of a person rests on the records about that person alone,
/// and there are such records exactly if the person occurs.
pub proof fn lemma_own_records(records: Seq<Record>, name: Seq<char>)
    ensures
        tally_of(records, name) == tally_of(own_records(records, name), name),
        occurs(records, name) <==> own_records(records, name).len() > 0,
    decreases records.len(),
{
    if records.len() > 0 {
        let front = records.drop_last();
        let last = records.last();
        lemma_own_records(front, name);
        if last.name() == name {
            assert(own_records(records, name).drop_last() == own_records(front, name));
            assert(records[records.len() - 1].name() == name);
        } else {
            if occurs(records, name) {
                let i = choose|i: int| 0 <= i < records.len() && (#[trigger] records[i]).name() == name;
                assert(front[i].name() == name);
            }
            if occurs(front, name) {
                let i = choose|i: int| 0 <= i < front.len() && (#[trigger] front[i]).name() == name;
                assert(records[i].name() == name);
            }
        }
    }
}

/// The order of the records does not matter to what a scoreboard holds
/// for a person, nor do the records about others: two sequences that
/// hold the same records about a person as often give that person the
/// same tally, or both give none.
pub proof fn lemma_order_does_not_matter(a: Seq<Record>, b: Seq<Record>, name: Seq<char>)
    requires
        own_records(a, name).to_multiset() == own_records(b, name).to_multiset(),
    ensures
        tally_of(a, name) == tally_of(b, name),
        lookup(summary(a), name) == lookup(summary(b), name),
{
    lemma_own_records(a, name);
    lemma_own_records(b, name);
    lemma_tally_of_permutation(own_records(a, name), own_records(b, name), name);
    to_multiset_len(own_records(a, name));
    to_multiset_len(own_records(b, name));
    lemma_lookup_summary(a, name);
    lemma_lookup_summary(b, name);
}

/// The order of the records does not matter to what a scoreboard holds:
/// two sequences that hold the same records as often give the same
/// persons an entry, and each of them the same tally.
pub proof fn lemma_summary_permutation(a: Seq<Record>, b: Seq<Record>, name: Seq<char>)
    requires
        a.to_multiset() == b.to_multiset(),
    ensures
        lookup(summary(a), name) == lookup(summary(b), name),
{
    lemma_lookup_summary(a, name);
    lemma_lookup_summary(b, name);
    lemma_tally_of_permutation(a, b, name);
    if occurs(a, name) {
        let i = choose|i: int| 0 <= i < a.len() && (#[trigger] a[i]).name() == name;
        to_multiset_contains(a, a[i]);
        to_multiset_contains(b, a[i]);
        let k = choose|k: int| 0 <= k < b.len() && b[k] == a[i];
        assert(b[k].name() == name);
    }
    if occurs(b, name) {
        let i = choose|i: int| 0 <= i < b.len() && (#[trigger] b[i]).name() == name;
        to_multiset_contains(b, b[i]);
        to_multiset_contains(a, b[i]);
        let k = choose|k: int| 0 <= k < a.len() && a[k] == b[i];
        assert(a[k].name() == name);
    }
}

/// Entries are made on demand only: a scoreboard holds an entry for a
/// person exactly if there is a record about that person, and none
/// where the records about that person are zero.
pub proof fn lemma_entry_on_demand(records: Seq<Record>, name: Seq<char>)
    ensures
        lookup(summary(records), name) is Some <==> occurs(records, name),
        lookup(summary(records), name) is Some <==> own_records(records, name).len() > 0,
{
    lemma_lookup_summary(records, name);
    lemma_own_records(records, name);
}

/// A step keeps the names apart.
pub proof fn lemma_step_distinct(entries: Seq<(Seq<char>, Tally)>, record: Record)
    requires
        distinct(entries),
    ensures
        distinct(step(entries, record)),
{
    lemma_position_first(entries, record.name());
    let after = step(entries, record);
    let at = position(entries, record.name());
    assert forall|i: int, j: int| 0 <= i < j < after.len() implies (#[trigger] after[i]).0 != (
    #[trigger] after[j]).0 by {
        if at < entries.len() {
        } else {
            if j < entries.len() {
            }
        }
    }
}

/// One person of a scoreboard.
struct Entry {
    name: String,
    stats: ScoreStruct,
}

/// The totals of every person met so far, in the order in which the
/// persons were first met.
pub struct Scoreboard {
    entries: Vec<Entry>,
}

impl View for Scoreboard {
    type V = Seq<(Seq<char>, Tally)>;

    closed spec fn view(&self) -> Seq<(Seq<char>, Tally)> {
        self.entries@.map_values(|entry: Entry| (entry.name@, entry.stats@))
    }
}

impl Scoreboard {
    /// No person has two entries.
    #[verifier::type_invariant]
    pub open spec fn one_entry_each(&self) -> bool {
        distinct(self@)
    }

    /// A scoreboard without entries.
    pub fn new() -> (board: Self)
        ensures
            board@ == Seq::<(Seq<char>, Tally)>::empty(),
    {
        Scoreboard { entries: Vec::new() }
    }

    /// How many persons have an entry.
    pub fn len(&self) -> (count: usize)
        ensures
            count == self@.len(),
    {
        self.entries.len()
    }

    /// The name of the person at `index`.
    pub fn name(&self, index: usize) -> (name: &str)
        requires
            index < self@.len(),
        ensures
            name@ == self@[index as int].0,
    {
        self.entries[index].name.as_str()
    }

    /// The totals of the person at `index`.
    pub fn stats(&self, index: usize) -> (stats: ScoreStruct)
        requires
            index < self@.len(),
        ensures
            stats@ == self@[index as int].1,
    {
        self.entries[index].stats
    }

    /// Where the entry for `name` stands, or `len()` if there is none.
    fn find(&self, name: &String) -> (at: usize)
        ensures
            at == position(self@, name@),
            at <= self@.len(),
    {
        let mut at: usize = 0;
        while at < self.entries.len() && !(self.entries[at].name == *name)
            invariant
                at <= self.entries.len(),
                self@.len() == self.entries.len(),
                forall|i: int| 0 <= i < at ==> (#[trigger] self@[i]).0 != name@,
            decreases self.entries.len() - at,
        {
            at += 1;
        }
        proof {
            lemma_position(self@, name@, at as int);
        }
        at
    }

    /// The totals of `name`, if that person has an entry.
    pub fn get(&self, name: &str) -> (found: Option<ScoreStruct>)
        ensures
            match found {
                Some(stats) => lookup(self@, name@) == Some(stats@),
                None => lookup(self@, name@) is None,
            },
    {
        let key = String::from_str(name);
        let at = self.find(&key);
        if at < self.entries.len() {
            Some(self.entries[at].stats)
        } else {
            None
        }
    }

    /// Takes one more record: the entry of that person is looked up, or
    /// made with nothing recorded, and the record counts there.
    pub fn record(&mut self, score: &Score)
        requires
            has_room(old(self)@, score@),
        ensures
            final(self)@ == step(old(self)@, score@),
            distinct(final(self)@),
    {
        proof {
            use_type_invariant(&*self);
        }
        let ghost before = self@;
        let name = match score {
            Score::Name(name) => name,
            Score::WithScore(name, _) => name,
        };
        let at = self.find(name);
        let mut stats = if at < self.entries.len() {
            self.entries[at].stats
        } else {
            ScoreStruct::new()
        };
        match score {
            Score::Name(_) => stats.missed_test(),
            Score::WithScore(_, value) => stats.add_score(*value),
        }
        proof {
            lemma_position_first(before, name@);
            lemma_step_distinct(before, score@);
        }
        // The entries leave the scoreboard while they change, so that it
        // holds distinct names at every moment.
        let mut entries: Vec<Entry> = Vec::new();
        std::mem::swap(&mut self.entries, &mut entries);
        if at < entries.len() {
            entries[at].stats = stats;
        } else {
            entries.push(Entry { name: name.clone(), stats });
        }
        assert(entries@.map_values(|entry: Entry| (entry.name@, entry.stats@)) =~= step(
            before,
            score@,
        ));
        std::mem::swap(&mut self.entries, &mut entries);
    }

    /// The lines of the report, one for each person.
    pub fn lines(&self) -> (lines: Vec<String>)
        ensures
            lines@.len() == self@.len(),
            forall|i: int| 0 <= i < self@.len() ==> (#[trigger] lines@[i])@ == report_line(self@[i]),
    {
        let mut lines: Vec<String> = Vec::new();
        let mut i: usize = 0;
        while i < self.entries.len()
            invariant
                i <= self.entries.len(),
                self@.len() == self.entries.len(),
                lines@.len() == i,
                forall|j: int| 0 <= j < i ==> (#[trigger] lines@[j])@ == report_line(self@[j]),
            decreases self.entries.len() - i,
        {
            let line = summary_line(self.entries[i].name.as_str(), &self.entries[i].stats);
            lines.push(line);
            i += 1;
        }
        lines
    }
}

/// The line of the report for one person.
pub fn summary_line(name: &str, stats: &ScoreStruct) -> (line: String)
    ensures
        line@ == report_line((name@, stats@)),
{
    let mut line = String::from_str(name);
    line.append(" took ");
    let sentence = stats.render();
    line.append(sentence.as_str());
    line
}

/// Folds the records, in their order, into a scoreboard.
pub fn aggregate(scores: &[Score]) -> (board: Scoreboard)
    ensures
        board@ == summary(records(scores@)),
        distinct(board@),
        forall|name: Seq<char>|
            lookup(board@, name) == if occurs(records(scores@), name) {
                Some(tally_of(records(scores@), name))
            } else {
                None::<Tally>
            },
{
    let ghost all = records(scores@);
    let mut board = Scoreboard::new();
    let mut i: usize = 0;
    while i < scores.len()
        invariant
            i <= scores.len(),
            all == records(scores@),
            board@ == summary(all.take(i as int)),
        decreases scores.len() - i,
    {
        let ghost seen = all.take(i as int);
        proof {
            let name = scores@[i as int]@.name();
            lemma_lookup_summary(seen, name);
            lemma_tally_counts(seen, name);
            lemma_step_summary(seen, scores@[i as int]@);
            assert(seen.push(all[i as int]) == all.take(i + 1));
        }
        board.record(&scores[i]);
        i += 1;
    }
    proof {
        assert(all.take(i as int) == all);
        assert forall|name: Seq<char>|
            lookup(board@, name) == if occurs(all, name) {
                Some(tally_of(all, name))
            } else {
                None::<Tally>
            } by {
            lemma_lookup_summary(all, name);
        }
        use_type_invariant(&board);
    }
    board
}

} // verus!
