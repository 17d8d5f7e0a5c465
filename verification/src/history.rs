//! The usage history of one source of candidates: a count per name.

use crate::text::str_eq;
use vstd::prelude::*;

verus! {

/// One line of a history: a name and how often it was launched.
pub type Record = (Seq<char>, usize);

/// Whether no name occurs twice among `records`.
pub open spec fn names_distinct(records: Seq<Record>) -> bool {
    forall|i: int, j: int|
        0 <= i < j < records.len() ==> (#[trigger] records[i]).0 != (#[trigger] records[j]).0
}

/// Whether `name` occurs among `records`.
pub open spec fn has_name(records: Seq<Record>, name: Seq<char>) -> bool {
    exists|i: int| 0 <= i < records.len() && (#[trigger] records[i]).0 == name
}

/// A place at which `name` occurs among `records`, if it occurs at all.
pub open spec fn position(records: Seq<Record>, name: Seq<char>) -> int {
    choose|i: int| 0 <= i < records.len() && (#[trigger] records[i]).0 == name
}

/// The count recorded for `name`, if there is one.
pub open spec fn count_of(records: Seq<Record>, name: Seq<char>) -> Option<usize> {
    if has_name(records, name) {
        Some(records[position(records, name)].1)
    } else {
        None
    }
}

/// The mapping from name to count that `records` stands for.
pub open spec fn as_map(records: Seq<Record>) -> Map<Seq<char>, usize> {
    Map::new(
        |name: Seq<char>| has_name(records, name),
        |name: Seq<char>| records[position(records, name)].1,
    )
}

/// With distinct names, the place of a name is the one place it occurs at.
pub proof fn lemma_position_unique(records: Seq<Record>, i: int)
    requires
        names_distinct(records),
        0 <= i < records.len(),
    ensures
        has_name(records, records[i].0),
        position(records, records[i].0) == i,
        count_of(records, records[i].0) == Some(records[i].1),
{
    let name = records[i].0;
    let p = position(records, name);
    assert(0 <= p < records.len() && records[p].0 == name);
    if p < i {
        assert(records[p].0 != records[i].0);
    } else if i < p {
        assert(records[i].0 != records[p].0);
    }
}

/// Replacing the count at one place changes the mapping at that name only.
pub proof fn lemma_update_count(records: Seq<Record>, i: int, count: usize)
    requires
        names_distinct(records),
        0 <= i < records.len(),
    ensures
        names_distinct(records.update(i, (records[i].0, count))),
        as_map(records.update(i, (records[i].0, count))) == as_map(records).insert(
            records[i].0,
            count,
        ),
{
    let name = records[i].0;
    let after = records.update(i, (name, count));
    assert(names_distinct(after)) by {
        assert forall|a: int, b: int| 0 <= a < b < after.len() implies (#[trigger] after[a]).0 != (
        #[trigger] after[b]).0 by {
            assert(after[a].0 == records[a].0);
            assert(after[b].0 == records[b].0);
        }
    }
    assert forall|k: Seq<char>| has_name(after, k) == has_name(records, k) by {
        if has_name(records, k) {
            let p = position(records, k);
            assert(after[p].0 == k);
        }
        if has_name(after, k) {
            let p = position(after, k);
            assert(records[p].0 == k);
        }
    }
    assert forall|k: Seq<char>| has_name(after, k) implies #[trigger] as_map(after)[k] == as_map(
        records,
    ).insert(name, count)[k] by {
        let p = position(after, k);
        lemma_position_unique(after, p);
        assert(records[p].0 == k);
        lemma_position_unique(records, p);
    }
    assert(as_map(after) =~= as_map(records).insert(name, count)) by {
        lemma_position_unique(records, i);
    }
}

/// Appending a name that is not there yet adds it to the mapping.
pub proof fn lemma_push_record(records: Seq<Record>, name: Seq<char>, count: usize)
    requires
        names_distinct(records),
        !has_name(records, name),
    ensures
        names_distinct(records.push((name, count))),
        as_map(records.push((name, count))) == as_map(records).insert(name, count),
{
    let after = records.push((name, count));
    let last = records.len() as int;
    assert(names_distinct(after)) by {
        assert forall|a: int, b: int| 0 <= a < b < after.len() implies (#[trigger] after[a]).0 != (
        #[trigger] after[b]).0 by {
            assert(after[a] == records[a]);
            if b < last {
                assert(after[b] == records[b]);
            }
        }
    }
    assert(after[last].0 == name);
    assert forall|k: Seq<char>| has_name(after, k) == (has_name(records, k) || k == name) by {
        if has_name(records, k) {
            let p = position(records, k);
            assert(after[p].0 == k);
        }
        if has_name(after, k) {
            let p = position(after, k);
            if p < last {
                assert(records[p].0 == k);
            }
        }
    }
    assert forall|k: Seq<char>| has_name(after, k) implies #[trigger] as_map(after)[k] == as_map(
        records,
    ).insert(name, count)[k] by {
        let p = position(after, k);
        lemma_position_unique(after, p);
        if p < last {
            assert(records[p] == after[p]);
            lemma_position_unique(records, p);
        }
    }
    assert(as_map(after) =~= as_map(records).insert(name, count));
}

/// The count of a name after one more launch. A count that cannot grow any
/// more stays as it is.
pub open spec fn bumped(history: Map<Seq<char>, usize>, name: Seq<char>) -> usize {
    if !history.contains_key(name) {
        1
    } else if history[name] < usize::MAX {
        (history[name] + 1) as usize
    } else {
        history[name]
    }
}

/// How often each candidate of one source was launched. No name occurs twice.
pub struct History {
    names: Vec<String>,
    counts: Vec<usize>,
}

impl View for History {
    type V = Map<Seq<char>, usize>;

    closed spec fn view(&self) -> Map<Seq<char>, usize> {
        as_map(self.records())
    }
}

impl History {
    /// What every history satisfies: a count for each name, and no name twice.
    /// Every function that makes or changes a history keeps it so.
    pub closed spec fn wf(&self) -> bool {
        &&& self.names.len() == self.counts.len()
        &&& names_distinct(self.records())
    }

    /// The records in the order in which they are kept and written out.
    pub closed spec fn records(&self) -> Seq<Record> {
        Seq::new(self.names.len() as nat, |i: int| (self.names[i]@, self.counts[i]))
    }

    /// The view is the mapping that the records stand for, and in a
    /// well-formed history no name occurs twice.
    pub proof fn lemma_view(&self)
        ensures
            self@ == as_map(self.records()),
            self.wf() ==> names_distinct(self.records()),
    {
    }

    /// A history without any record.
    pub fn new() -> (history: History)
        ensures
            history.wf(),
            history.records() == Seq::<Record>::empty(),
            history@ == Map::<Seq<char>, usize>::empty(),
    {
        let history = History { names: Vec::new(), counts: Vec::new() };
        assert(history.records() =~= Seq::<Record>::empty());
        assert(history@ =~= Map::<Seq<char>, usize>::empty());
        history
    }

    /// The number of records.
    pub fn len(&self) -> (n: usize)
        ensures
            n == self.records().len(),
    {
        self.names.len()
    }

    /// The name of the record at `index`.
    pub fn name_at(&self, index: usize) -> (name: &String)
        requires
            index < self.records().len(),
        ensures
            name@ == self.records()[index as int].0,
    {
        &self.names[index]
    }

    /// The count of the record at `index`.
    pub fn count_at(&self, index: usize) -> (count: usize)
        requires
            self.wf(),
            index < self.records().len(),
        ensures
            count == self.records()[index as int].1,
    {
        self.counts[index]
    }

    fn find(&self, name: &str) -> (place: Option<usize>)
        ensures
            match place {
                Some(i) => i < self.records().len() && self.records()[i as int].0 == name@,
                None => !has_name(self.records(), name@),
            },
    {
        let mut i: usize = 0;
        while i < self.names.len()
            invariant
                i <= self.names.len(),
                forall|k: int| 0 <= k < i ==> (#[trigger] self.records()[k]).0 != name@,
            decreases self.names.len() - i,
        {
            if str_eq(self.names[i].as_str(), name) {
                return Some(i);
            }
            i = i + 1;
        }
        None
    }

    /// The count recorded for `name`, or `None` where the history does not
    /// know the name.
    pub fn get(&self, name: &str) -> (count: Option<usize>)
        requires
            self.wf(),
        ensures
            count == count_of(self.records(), name@),
            count == if self@.contains_key(name@) {
                Some(self@[name@])
            } else {
                None::<usize>
            },
    {
        match self.find(name) {
            Some(i) => {
                proof {
                    lemma_position_unique(self.records(), i as int);
                }
                Some(self.counts[i])
            },
            None => None,
        }
    }

    /// Records `count` for `name`, in place of any count it had. A name that
    /// is new goes to the end of the records.
    pub fn insert(&mut self, name: &str, count: usize)
        requires
            old(self).wf(),
        ensures
            final(self).wf(),
            final(self)@ == old(self)@.insert(name@, count),
            final(self).records() == if has_name(old(self).records(), name@) {
                old(self).records().update(position(old(self).records(), name@), (name@, count))
            } else {
                old(self).records().push((name@, count))
            },
    {
        let ghost before = self.records();
        match self.find(name) {
            Some(i) => {
                proof {
                    lemma_position_unique(before, i as int);
                    lemma_update_count(before, i as int, count);
                }
                self.counts.set(i, count);
                assert(self.records() =~= before.update(i as int, (name@, count)));
            },
            None => {
                proof {
                    lemma_push_record(before, name@, count);
                }
                self.names.push(name.to_owned());
                self.counts.push(count);
                assert(self.records() =~= before.push((name@, count)));
            },
        }
    }

    /// Counts one more launch of `name`.
    pub fn reward(&mut self, name: &str)
        requires
            old(self).wf(),
        ensures
            final(self).wf(),
            final(self)@ == old(self)@.insert(name@, bumped(old(self)@, name@)),
    {
        let count = match self.get(name) {
            Some(count) => if count < usize::MAX {
                count + 1
            } else {
                count
            },
            None => 1,
        };
        self.insert(name, count);
    }
}

impl Clone for History {
    /// A copy of its own: changing one does not change the other.
    fn clone(&self) -> (copy: History)
        ensures
            copy.records() == self.records(),
            copy@ == self@,
            self.wf() ==> copy.wf(),
    {
        let mut names: Vec<String> = Vec::new();
        let mut i: usize = 0;
        while i < self.names.len()
            invariant
                i <= self.names@.len(),
                names@.len() == i,
                forall|k: int| 0 <= k < i ==> (#[trigger] names@[k])@ == self.names@[k]@,
            decreases self.names@.len() - i,
        {
            names.push(self.names[i].clone());
            i = i + 1;
        }
        let mut counts: Vec<usize> = Vec::new();
        let mut j: usize = 0;
        while j < self.counts.len()
            invariant
                j <= self.counts@.len(),
                counts@.len() == j,
                forall|k: int| 0 <= k < j ==> (#[trigger] counts@[k]) == self.counts@[k],
            decreases self.counts@.len() - j,
        {
            counts.push(self.counts[j]);
            j = j + 1;
        }
        assert(counts@ =~= self.counts@);
        let copy = History { names, counts };
        assert(copy.records() =~= self.records());
        copy
    }
}

} // verus!
