//! Tallies of classical outcomes.

use vstd::prelude::*;

use crate::text::same_text;

verus! {

/// How often each outcome came up. An outcome that never did has no entry.
pub struct Counts {
    /// The outcomes with their numbers, in the order in which they came up first.
    pub entries: Vec<(String, usize)>,
}

/// Whether no outcome has two entries.
pub open spec fn distinct_keys(entries: Seq<(String, usize)>) -> bool {
    forall|i: int, j: int|
        0 <= i < j < entries.len() ==> (#[trigger] entries[i]).0@ != (#[trigger] entries[j]).0@
}

/// The entries as a map.
pub open spec fn entry_map(entries: Seq<(String, usize)>) -> Map<Seq<char>, nat>
    decreases entries.len(),
{
    if entries.len() == 0 {
        Map::empty()
    } else {
        entry_map(entries.drop_last()).insert(entries.last().0@, entries.last().1 as nat)
    }
}

/// The sum of all numbers.
pub open spec fn entry_total(entries: Seq<(String, usize)>) -> nat
    decreases entries.len(),
{
    if entries.len() == 0 {
        0
    } else {
        entry_total(entries.drop_last()) + entries.last().1 as nat
    }
}

/// The tally after `amount` more of one outcome.
pub open spec fn bumped(m: Map<Seq<char>, nat>, key: Seq<char>, amount: nat) -> Map<
    Seq<char>,
    nat,
> {
    m.insert(
        key,
        if m.dom().contains(key) {
            m[key] + amount
        } else {
            amount
        },
    )
}

/// The tally of a sequence of outcomes.
pub open spec fn tally(keys: Seq<Seq<char>>) -> Map<Seq<char>, nat>
    decreases keys.len(),
{
    if keys.len() == 0 {
        Map::empty()
    } else {
        bumped(tally(keys.drop_last()), keys.last(), 1)
    }
}

proof fn lemma_entry(entries: Seq<(String, usize)>, i: int)
    requires
        distinct_keys(entries),
        0 <= i < entries.len(),
    ensures
        entry_map(entries).dom().contains(entries[i].0@),
        entry_map(entries)[entries[i].0@] == entries[i].1,
    decreases entries.len(),
{
    let rest = entries.drop_last();
    if i < rest.len() {
        assert(distinct_keys(rest)) by {
            assert forall|a: int, b: int| 0 <= a < b < rest.len() implies (#[trigger] rest[a]).0@
                != (#[trigger] rest[b]).0@ by {
                assert(entries[a].0@ != entries[b].0@);
            }
        }
        lemma_entry(rest, i);
        assert(entries[i].0@ != entries[entries.len() - 1].0@);
    }
}

proof fn lemma_no_entry(entries: Seq<(String, usize)>, key: Seq<char>)
    requires
        forall|i: int| 0 <= i < entries.len() ==> (#[trigger] entries[i]).0@ != key,
    ensures
        !entry_map(entries).dom().contains(key),
    decreases entries.len(),
{
    if entries.len() > 0 {
        let rest = entries.drop_last();
        assert forall|i: int| 0 <= i < rest.len() implies (#[trigger] rest[i]).0@ != key by {
            assert(entries[i].0@ != key);
        }
        lemma_no_entry(rest, key);
        assert(entries[entries.len() - 1].0@ != key);
    }
}

proof fn lemma_entry_update(entries: Seq<(String, usize)>, i: int, value: usize)
    requires
        distinct_keys(entries),
        0 <= i < entries.len(),
    ensures
        entry_map(entries.update(i, (entries[i].0, value))) == entry_map(entries).insert(
            entries[i].0@,
            value as nat,
        ),
        entry_total(entries.update(i, (entries[i].0, value))) + entries[i].1 == entry_total(entries)
            + value,
    decreases entries.len(),
{
    let rest = entries.drop_last();
    let updated = entries.update(i, (entries[i].0, value));
    if i < rest.len() {
        assert(distinct_keys(rest)) by {
            assert forall|a: int, b: int| 0 <= a < b < rest.len() implies (#[trigger] rest[a]).0@
                != (#[trigger] rest[b]).0@ by {
                assert(entries[a].0@ != entries[b].0@);
            }
        }
        lemma_entry_update(rest, i, value);
        assert(updated.drop_last() =~= rest.update(i, (rest[i].0, value)));
        assert(entries[i].0@ != entries[entries.len() - 1].0@);
        assert(entry_map(updated) =~= entry_map(entries).insert(entries[i].0@, value as nat));
    } else {
        assert(updated.drop_last() =~= rest);
        assert(entry_map(updated) =~= entry_map(entries).insert(entries[i].0@, value as nat));
    }
}

impl View for Counts {
    type V = Map<Seq<char>, nat>;

    open spec fn view(&self) -> Map<Seq<char>, nat> {
        entry_map(self.entries@)
    }
}

impl Counts {
    /// No outcome has two entries.
    pub open spec fn wf(&self) -> bool {
        distinct_keys(self.entries@)
    }

    /// The number of outcomes counted in all.
    pub open spec fn total(&self) -> nat {
        entry_total(self.entries@)
    }

    /// An empty tally.
    pub fn new() -> (r: Counts)
        ensures
            r.wf(),
            r@ == Map::<Seq<char>, nat>::empty(),
            r.total() == 0,
    {
        Counts { entries: Vec::new() }
    }

    /// The number of different outcomes.
    pub fn len(&self) -> (r: usize)
        ensures
            r == self.entries@.len(),
    {
        self.entries.len()
    }

    /// The position of an outcome's entry.
    fn find(&self, key: &str) -> (r: Option<usize>)
        ensures
            match r {
                Some(i) => i < self.entries@.len() && self.entries@[i as int].0@ == key@,
                None => forall|i: int|
                    0 <= i < self.entries@.len() ==> (#[trigger] self.entries@[i]).0@ != key@,
            },
    {
        let mut i: usize = 0;
        while i < self.entries.len()
            invariant
                i <= self.entries@.len(),
                forall|j: int| 0 <= j < i ==> (#[trigger] self.entries@[j]).0@ != key@,
            decreases self.entries@.len() - i,
        {
            if same_text(self.entries[i].0.as_str(), key) {
                return Some(i);
            }
            i = i + 1;
        }
        None
    }

    /// How often an outcome came up.
    pub fn get(&self, key: &str) -> (r: Option<&usize>)
        requires
            self.wf(),
        ensures
            match r {
                Some(count) => self@.dom().contains(key@) && self@[key@] == *count,
                None => !self@.dom().contains(key@),
            },
    {
        match self.find(key) {
            Some(i) => {
                proof {
                    lemma_entry(self.entries@, i as int);
                }
                Some(&self.entries[i].1)
            },
            None => {
                proof {
                    lemma_no_entry(self.entries@, key@);
                }
                None
            },
        }
    }

    /// Counts `amount` more of an outcome.
    pub fn add(&mut self, key: String, amount: usize)
        requires
            old(self).wf(),
            old(self).total() + amount <= usize::MAX,
        ensures
            final(self).wf(),
            final(self)@ == bumped(old(self)@, key@, amount as nat),
            final(self).total() == old(self).total() + amount,
    {
        let ghost before = self.entries@;
        match self.find(key.as_str()) {
            Some(i) => {
                let count: usize = self.entries[i].1;
                proof {
                    lemma_entry(before, i as int);
                    lemma_entry_bounded(before, i as int);
                    lemma_entry_update(before, i as int, (count + amount) as usize);
                }
                let name: String = self.entries[i].0.clone();
                self.entries[i] = (name, count + amount);
                assert(self.entries@ =~= before.update(
                    i as int,
                    (before[i as int].0, (count + amount) as usize),
                ));
            },
            None => {
                proof {
                    lemma_no_entry(before, key@);
                }
                self.entries.push((key, amount));
                assert(self.entries@.drop_last() =~= before);
            },
        }
    }
}

proof fn lemma_entry_bounded(entries: Seq<(String, usize)>, i: int)
    requires
        0 <= i < entries.len(),
    ensures
        entries[i].1 <= entry_total(entries),
    decreases entries.len(),
{
    if i < entries.len() - 1 {
        lemma_entry_bounded(entries.drop_last(), i);
    }
}

/// Adds every count of `other` to `counts`.
pub fn merge_counts(counts: &mut Counts, other: &Counts)
    requires
        old(counts).wf(),
        other.wf(),
        old(counts).total() + other.total() <= usize::MAX,
    ensures
        final(counts).wf(),
        final(counts).total() == old(counts).total() + other.total(),
        forall|key: Seq<char>|
            #![trigger final(counts)@.dom().contains(key)]
            final(counts)@.dom().contains(key) <==> old(counts)@.dom().contains(key)
                || other@.dom().contains(key),
        forall|key: Seq<char>|
            #![trigger final(counts)@[key]]
            final(counts)@.dom().contains(key) ==> final(counts)@[key] == count_in(
                old(counts)@,
                key,
            ) + count_in(other@, key),
{
    let ghost before = counts@;
    let ghost start = counts.total();
    let mut i: usize = 0;
    while i < other.entries.len()
        invariant
            i <= other.entries@.len(),
            counts.wf(),
            other.wf(),
            start + other.total() <= usize::MAX,
            counts.total() == start + entry_total(other.entries@.take(i as int)),
            forall|key: Seq<char>|
                #![trigger counts@.dom().contains(key)]
                counts@.dom().contains(key) <==> before.dom().contains(key) || entry_map(
                    other.entries@.take(i as int),
                ).dom().contains(key),
            forall|key: Seq<char>|
                #![trigger counts@[key]]
                counts@.dom().contains(key) ==> counts@[key] == count_in(before, key) + count_in(
                    entry_map(other.entries@.take(i as int)),
                    key,
                ),
        decreases other.entries@.len() - i,
    {
        let ghost now = other.entries@.take(i as int);
        let ghost next = other.entries@.take(i + 1);
        proof {
            assert(next.drop_last() =~= now);
            lemma_total_grows(other.entries@, i + 1);
            assert forall|j: int| 0 <= j < now.len() implies (#[trigger] now[j]).0@
                != other.entries@[i as int].0@ by {
                assert(other.entries@[j].0@ != other.entries@[i as int].0@);
            }
            lemma_no_entry(now, other.entries@[i as int].0@);
        }
        let key: String = other.entries[i].0.clone();
        let amount: usize = other.entries[i].1;
        counts.add(key, amount);
        i = i + 1;
    }
    assert(other.entries@.take(i as int) =~= other.entries@);
}

/// The number that a tally holds for an outcome, zero where it has no entry.
pub open spec fn count_in(m: Map<Seq<char>, nat>, key: Seq<char>) -> nat {
    if m.dom().contains(key) {
        m[key]
    } else {
        0
    }
}

proof fn lemma_total_grows(entries: Seq<(String, usize)>, i: int)
    requires
        0 <= i <= entries.len(),
    ensures
        entry_total(entries.take(i)) <= entry_total(entries),
    decreases entries.len() - i,
{
    if i == entries.len() {
        assert(entries.take(i) =~= entries);
    } else {
        lemma_total_grows(entries, i + 1);
        assert(entries.take(i + 1).drop_last() =~= entries.take(i));
    }
}

} // verus!
