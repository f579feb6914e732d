//! The aggregate count table: how often each sender value was seen.
//!
//! The table is modelled by its rows, a sequence of pairs of a key and a
//! count, in the order in which the keys first appeared. The mapping from
//! key to count and the sum of all counts are read off the rows.

use vstd::prelude::*;
use vstd::hash_map::StringHashMap;

verus! {

/// Where `key` stands in `rows`, if it does.
pub open spec fn position_of(rows: Seq<(Seq<char>, nat)>, key: Seq<char>) -> Option<int> {
    if exists|i: int| 0 <= i < rows.len() && rows[i].0 == key {
        Some(choose|i: int| 0 <= i < rows.len() && rows[i].0 == key)
    } else {
        None
    }
}

/// How often `key` was counted; zero when no row holds it.
pub open spec fn count_of(rows: Seq<(Seq<char>, nat)>, key: Seq<char>) -> nat {
    match position_of(rows, key) {
        Some(i) => rows[i].1,
        None => 0,
    }
}

/// The mapping from key to count that the rows stand for.
pub open spec fn rows_map(rows: Seq<(Seq<char>, nat)>) -> Map<Seq<char>, nat> {
    Map::new(|key: Seq<char>| position_of(rows, key) is Some, |key: Seq<char>| count_of(rows, key))
}

/// The sum of all counts.
pub open spec fn rows_total(rows: Seq<(Seq<char>, nat)>) -> nat
    decreases rows.len(),
{
    if rows.len() == 0 {
        0
    } else {
        rows_total(rows.drop_last()) + rows.last().1
    }
}

/// The rows of a table: no key stands in two rows, and every count is at
/// least one.
pub open spec fn is_table(rows: Seq<(Seq<char>, nat)>) -> bool {
    &&& forall|i: int, j: int|
        0 <= i < j < rows.len() ==> (#[trigger] rows[i]).0 != (#[trigger] rows[j]).0
    &&& forall|i: int| 0 <= i < rows.len() ==> (#[trigger] rows[i]).1 >= 1
}

/// The rows after one more occurrence of `key`: its row is raised in
/// place, or a new row with count one is added at the end.
pub open spec fn bump_rows(rows: Seq<(Seq<char>, nat)>, key: Seq<char>) -> Seq<(Seq<char>, nat)> {
    match position_of(rows, key) {
        Some(i) => rows.update(i, (key, rows[i].1 + 1)),
        None => rows.push((key, 1)),
    }
}

/// In a table the position of a key is the one row that holds it.
pub proof fn lemma_position_of(rows: Seq<(Seq<char>, nat)>, i: int)
    requires
        is_table(rows),
        0 <= i < rows.len(),
    ensures
        position_of(rows, rows[i].0) == Some(i),
{
    let key = rows[i].0;
    let at = choose|j: int| 0 <= j < rows.len() && rows[j].0 == key;
    if at < i {
        assert(rows[at].0 != rows[i].0);
    } else if i < at {
        assert(rows[i].0 != rows[at].0);
    }
}

/// Raising one count by one raises the sum of all counts by one.
pub proof fn lemma_rows_total_update(rows: Seq<(Seq<char>, nat)>, i: int)
    requires
        0 <= i < rows.len(),
    ensures
        rows_total(rows.update(i, (rows[i].0, rows[i].1 + 1))) == rows_total(rows) + 1,
        rows[i].1 <= rows_total(rows),
    decreases rows.len(),
{
    let after = rows.update(i, (rows[i].0, rows[i].1 + 1));
    if i == rows.len() - 1 {
        assert(after.drop_last() =~= rows.drop_last());
    } else {
        lemma_rows_total_update(rows.drop_last(), i);
        assert(after.drop_last() =~= rows.drop_last().update(
            i,
            (rows[i].0, rows[i].1 + 1),
        ));
    }
}

/// One more occurrence of a key keeps the rows a table, raises the count
/// of that key by one, leaves every other count as it was, and raises
/// the sum of all counts by one.
pub proof fn lemma_bump_rows(rows: Seq<(Seq<char>, nat)>, key: Seq<char>)
    requires
        is_table(rows),
    ensures
        is_table(bump_rows(rows, key)),
        count_of(bump_rows(rows, key), key) == count_of(rows, key) + 1,
        forall|other: Seq<char>|
            other != key ==> count_of(bump_rows(rows, key), other) == count_of(rows, other),
        rows_total(bump_rows(rows, key)) == rows_total(rows) + 1,
        rows_map(bump_rows(rows, key)) == rows_map(rows).insert(key, count_of(rows, key) + 1),
{
    let after = bump_rows(rows, key);
    match position_of(rows, key) {
        Some(i) => {
            lemma_rows_total_update(rows, i);
            assert(after[i].0 == key);
            lemma_position_of(after, i);
            assert forall|other: Seq<char>| other != key implies count_of(after, other)
                == count_of(rows, other) by {
                lemma_count_of_other(rows, after, other);
            }
        },
        None => {
            assert(after.drop_last() =~= rows);
            assert(after[rows.len() as int].0 == key);
            assert forall|a: int, b: int| 0 <= a < b < after.len() implies (#[trigger] after[a]).0
                != (#[trigger] after[b]).0 by {
                if b == rows.len() {
                    assert(rows[a].0 != key);
                }
            }
            lemma_position_of(after, rows.len() as int);
            assert forall|other: Seq<char>| other != key implies count_of(after, other)
                == count_of(rows, other) by {
                lemma_count_of_other(rows, after, other);
            }
        },
    }
    assert forall|other: Seq<char>| other != key implies (position_of(after, other) is Some
        <==> position_of(rows, other) is Some) by {
        lemma_count_of_other(rows, after, other);
    }
    assert(rows_map(after) =~= rows_map(rows).insert(key, count_of(rows, key) + 1));
}

/// A key has the same count in two tables if every row that holds it in
/// the one stands unchanged at the same place in the other.
proof fn lemma_count_of_other(
    rows: Seq<(Seq<char>, nat)>,
    after: Seq<(Seq<char>, nat)>,
    other: Seq<char>,
)
    requires
        is_table(rows),
        is_table(after),
        rows.len() <= after.len(),
        forall|i: int| 0 <= i < rows.len() && rows[i].0 == other ==> after[i] == rows[i],
        forall|i: int| 0 <= i < after.len() && after[i].0 == other ==> i < rows.len() && rows[i] == after[i],
    ensures
        count_of(after, other) == count_of(rows, other),
        position_of(after, other) is Some <==> position_of(rows, other) is Some,
{
    match position_of(rows, other) {
        Some(i) => {
            assert(after[i].0 == other);
            lemma_position_of(after, i);
        },
        None => {
            if position_of(after, other) is Some {
                let j = position_of(after, other)->0;
                assert(rows[j].0 == other);
            }
        },
    }
}

/// A mapping from sender value to the number of times it was counted.
///
/// Keys are compared as exact strings. The table remembers the order in
/// which its keys first appeared, and the sum of all its counts.
pub struct CountTable {
    index: StringHashMap<usize>,
    keys: Vec<String>,
    counts: Vec<u64>,
    total: u64,
}

impl View for CountTable {
    type V = Seq<(Seq<char>, nat)>;

    closed spec fn view(&self) -> Seq<(Seq<char>, nat)> {
        Seq::new(self.keys.len() as nat, |i: int| (self.keys[i]@, self.counts[i] as nat))
    }
}

impl CountTable {
    /// The invariant of the table: its rows are a table, the lookup index
    /// agrees with them, and the stored total is the sum of the counts.
    pub closed spec fn wf(&self) -> bool {
        &&& self.keys.len() == self.counts.len()
        &&& forall|i: int|
            0 <= i < self.keys.len() ==> self.index@.contains_key(#[trigger] self.keys[i]@)
                && self.index@[self.keys[i]@] == i
        &&& forall|k: Seq<char>| #[trigger]
            self.index@.contains_key(k) ==> self.index@[k] < self.keys.len()
                && self.keys[self.index@[k] as int]@ == k
        &&& forall|i: int| 0 <= i < self.counts.len() ==> #[trigger] self.counts[i] >= 1
        &&& self.total == rows_total(self@)
    }

    /// What the invariant means for the rows: they are a table, and the
    /// sum of their counts fits the counter.
    pub proof fn lemma_wf(&self)
        requires
            self.wf(),
        ensures
            is_table(self@),
            rows_total(self@) <= u64::MAX,
    {
        assert forall|i: int, j: int| 0 <= i < j < self@.len() implies (#[trigger] self@[i]).0 != (
        #[trigger] self@[j]).0 by {
            assert(self.index@[self.keys[i]@] == i);
            assert(self.index@[self.keys[j]@] == j);
        }
        assert forall|i: int| 0 <= i < self@.len() implies (#[trigger] self@[i]).1 >= 1 by {
            assert(self.counts[i] >= 1);
        }
    }

    /// The index finds a key exactly where the rows hold it.
    proof fn lemma_index(&self, key: Seq<char>)
        requires
            self.wf(),
        ensures
            match position_of(self@, key) {
                Some(i) => self.index@.contains_key(key) && self.index@[key] == i,
                None => !self.index@.contains_key(key),
            },
    {
        self.lemma_wf();
        if self.index@.contains_key(key) {
            let i = self.index@[key] as int;
            assert(self@[i].0 == key);
            lemma_position_of(self@, i);
        } else {
            if position_of(self@, key) is Some {
                let i = position_of(self@, key)->0;
                assert(self.index@.contains_key(self.keys[i]@));
            }
        }
    }

    /// Creates an empty table.
    pub fn new() -> (table: CountTable)
        ensures
            table.wf(),
            table@ == Seq::<(Seq<char>, nat)>::empty(),
    {
        let table = CountTable {
            index: StringHashMap::new(),
            keys: Vec::new(),
            counts: Vec::new(),
            total: 0,
        };
        assert(table@ =~= Seq::<(Seq<char>, nat)>::empty());
        table
    }

    /// Counts one more occurrence of `key`: a key already present has its
    /// count raised by one, a new key enters with count one.
    pub fn increment(&mut self, key: String)
        requires
            old(self).wf(),
            rows_total(old(self)@) < u64::MAX,
        ensures
            final(self).wf(),
            final(self)@ == bump_rows(old(self)@, key@),
            count_of(final(self)@, key@) == count_of(old(self)@, key@) + 1,
            rows_total(final(self)@) == rows_total(old(self)@) + 1,
    {
        proof {
            old(self).lemma_wf();
            old(self).lemma_index(key@);
            lemma_bump_rows(old(self)@, key@);
        }
        let found: Option<usize> = match self.index.get(key.as_str()) {
            Some(at) => Some(*at),
            None => None,
        };
        match found {
            Some(i) => {
                let count: u64 = self.counts[i];
                proof {
                    lemma_rows_total_update(old(self)@, i as int);
                }
                self.counts.set(i, count + 1);
                self.total = self.total + 1;
                assert(self@ =~= bump_rows(old(self)@, key@));
            },
            None => {
                let n: usize = self.keys.len();
                self.index.insert(key.clone(), n);
                self.keys.push(key);
                self.counts.push(1);
                self.total = self.total + 1;
                assert(self@ =~= bump_rows(old(self)@, key@));
            },
        }
    }

    /// The count of `key`; zero when the table does not hold it.
    pub fn count(&self, key: &str) -> (n: u64)
        requires
            self.wf(),
        ensures
            n == count_of(self@, key@),
    {
        proof {
            self.lemma_index(key@);
        }
        match self.index.get(key) {
            Some(at) => self.counts[*at],
            None => 0,
        }
    }

    /// The number of distinct keys.
    pub fn len(&self) -> (n: usize)
        requires
            self.wf(),
        ensures
            n == self@.len(),
    {
        self.keys.len()
    }

    /// The sum of all counts.
    pub fn total(&self) -> (n: u64)
        requires
            self.wf(),
        ensures
            n == rows_total(self@),
    {
        self.total
    }

    /// Returns the whole mapping for reporting: one pair per key, in the
    /// order in which the keys first appeared.
    pub fn snapshot(&self) -> (pairs: Vec<(String, u64)>)
        requires
            self.wf(),
        ensures
            pairs.len() == self@.len(),
            forall|i: int|
                0 <= i < pairs.len() ==> (#[trigger] pairs[i]).0@ == self@[i].0 && pairs[i].1
                    == self@[i].1,
    {
        let mut pairs: Vec<(String, u64)> = Vec::new();
        let mut i: usize = 0;
        while i < self.keys.len()
            invariant
                self.wf(),
                i <= self.keys.len(),
                pairs.len() == i,
                forall|j: int|
                    0 <= j < i ==> (#[trigger] pairs[j]).0@ == self@[j].0 && pairs[j].1
                        == self@[j].1,
            decreases self.keys.len() - i,
        {
            pairs.push((self.keys[i].clone(), self.counts[i]));
            i += 1;
        }
        pairs
    }
}

} // verus!
