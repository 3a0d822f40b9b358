//! A table of texts by key, each with the moment at which it was put in.

use vstd::prelude::*;

use crate::text::same;

verus! {

/// One row of the table.
struct Row {
    key: String,
    text: String,
    created: i64,
}

/// A table of texts by key, each with the moment at which it was put in.
pub struct TimedStore {
    rows: Vec<Row>,
}

/// The mathematical form of a table.
pub type TimedMap = Map<Seq<char>, (Seq<char>, i64)>;

spec fn rows_map(rows: Seq<Row>) -> TimedMap
    decreases rows.len(),
{
    if rows.len() == 0 {
        Map::empty()
    } else {
        let last = rows.last();
        rows_map(rows.drop_last()).insert(last.key@, (last.text@, last.created))
    }
}

spec fn distinct(rows: Seq<Row>) -> bool {
    forall|i: int, j: int| 0 <= i < j < rows.len() ==> rows[i].key@ != rows[j].key@
}

/// The rows of `m` put in less than `limit` seconds before `now`.
pub open spec fn younger(m: TimedMap, now: int, limit: int) -> TimedMap {
    m.restrict(m.dom().filter(|k: Seq<char>| now - m[k].1 < limit))
}

proof fn lemma_rows_map(rows: Seq<Row>)
    requires
        distinct(rows),
    ensures
        forall|i: int|
            0 <= i < rows.len() ==> rows_map(rows).contains_key((#[trigger] rows[i]).key@)
                && rows_map(rows)[rows[i].key@] == (rows[i].text@, rows[i].created),
        forall|k: Seq<char>|
            rows_map(rows).contains_key(k) ==> exists|i: int|
                0 <= i < rows.len() && (#[trigger] rows[i]).key@ == k,
    decreases rows.len(),
{
    if rows.len() > 0 {
        let before = rows.drop_last();
        lemma_rows_map(before);
        assert forall|i: int| 0 <= i < rows.len() implies rows_map(rows).contains_key(
            (#[trigger] rows[i]).key@,
        ) && rows_map(rows)[rows[i].key@] == (rows[i].text@, rows[i].created) by {
            if i < before.len() {
                assert(before[i] == rows[i]);
            }
        }
        assert forall|k: Seq<char>| rows_map(rows).contains_key(k) implies exists|i: int|
            0 <= i < rows.len() && (#[trigger] rows[i]).key@ == k by {
            if k == rows.last().key@ {
                assert(rows[rows.len() - 1].key@ == k);
            } else {
                assert(rows_map(before).contains_key(k));
                let i = choose|i: int| 0 <= i < before.len() && (#[trigger] before[i]).key@ == k;
                assert(before[i] == rows[i]);
            }
        }
    }
}

impl TimedStore {
    /// What the table holds.
    pub closed spec fn view(&self) -> TimedMap {
        rows_map(self.rows@)
    }

    /// Whether no key occurs twice.
    pub closed spec fn well_formed(&self) -> bool {
        distinct(self.rows@)
    }

    /// An empty table.
    pub fn new() -> (store: TimedStore)
        ensures
            store.well_formed(),
            store@ == TimedMap::empty(),
    {
        TimedStore { rows: Vec::new() }
    }

    fn position(&self, key: &str) -> (at: Option<usize>)
        requires
            self.well_formed(),
        ensures
            match at {
                Some(i) => i < self.rows@.len() && self.rows@[i as int].key@ == key@,
                None => forall|k: int|
                    0 <= k < self.rows@.len() ==> (#[trigger] self.rows@[k]).key@ != key@,
            },
    {
        let mut i: usize = 0;
        while i < self.rows.len()
            invariant
                i <= self.rows.len(),
                forall|k: int| 0 <= k < i ==> (#[trigger] self.rows@[k]).key@ != key@,
            decreases self.rows.len() - i,
        {
            if same(self.rows[i].key.as_str(), key) {
                return Some(i);
            }
            i += 1;
        }
        None
    }

    /// The text under `key` and when it was put in.
    pub fn get(&self, key: &str) -> (found: Option<(&String, i64)>)
        requires
            self.well_formed(),
        ensures
            match found {
                Some((text, created)) => self@.contains_key(key@) && self@[key@] == (
                    text@,
                    created,
                ),
                None => !self@.contains_key(key@),
            },
    {
        proof {
            lemma_rows_map(self.rows@);
        }
        match self.position(key) {
            Some(i) => Some((&self.rows[i].text, self.rows[i].created)),
            None => None,
        }
    }

    /// Puts a text under `key`, in the place of what was there.
    pub fn insert(&mut self, key: String, text: String, created: i64)
        requires
            old(self).well_formed(),
        ensures
            final(self).well_formed(),
            final(self)@ == old(self)@.insert(key@, (text@, created)),
    {
        let ghost before = self.rows@;
        proof {
            lemma_rows_map(before);
        }
        let ghost row_key = key@;
        let ghost value = (text@, created);
        match self.position(key.as_str()) {
            Some(i) => {
                let row = Row { key, text, created };
                self.rows.set(i, row);
                proof {
                    lemma_rows_map(self.rows@);
                    lemma_replaced(before, self.rows@, i as int, row_key, value);
                }
            },
            None => {
                self.rows.push(Row { key, text, created });
                assert(self.rows@.drop_last() =~= before);
            },
        }
    }

    /// Takes out what is under `key`.
    pub fn remove(&mut self, key: &str) -> (taken: Option<(String, i64)>)
        requires
            old(self).well_formed(),
        ensures
            final(self).well_formed(),
            final(self)@ == old(self)@.remove(key@),
            match taken {
                Some((text, created)) => old(self)@.contains_key(key@) && old(self)@[key@] == (
                    text@,
                    created,
                ),
                None => !old(self)@.contains_key(key@),
            },
    {
        let ghost before = self.rows@;
        proof {
            lemma_rows_map(before);
        }
        match self.position(key) {
            Some(i) => {
                let row = self.rows.remove(i);
                proof {
                    lemma_removed(before, i as int);
                }
                Some((row.text, row.created))
            },
            None => {
                assert(self@ =~= self@.remove(key@));
                None
            },
        }
    }

    /// Keeps only what was put in less than `limit` seconds before `now`.
    pub fn keep_younger(&mut self, now: i64, limit: i64)
        requires
            old(self).well_formed(),
        ensures
            final(self).well_formed(),
            final(self)@ == younger(old(self)@, now as int, limit as int),
    {
        let mut kept: Vec<Row> = Vec::new();
        let mut i: usize = 0;
        assert(self.rows@.take(0) =~= Seq::<Row>::empty());
        assert(rows_map(kept@) =~= younger(
            rows_map(self.rows@.take(0)),
            now as int,
            limit as int,
        ));
        while i < self.rows.len()
            invariant
                i <= self.rows.len(),
                distinct(self.rows@),
                distinct(kept@),
                rows_map(kept@) == younger(
                    rows_map(self.rows@.take(i as int)),
                    now as int,
                    limit as int,
                ),
            decreases self.rows.len() - i,
        {
            let ghost seen = self.rows@.take(i as int);
            let ghost kept_before = kept@;
            let ghost row = self.rows@[i as int];
            proof {
                assert(self.rows@.take(i + 1).drop_last() =~= seen);
                lemma_rows_map(seen);
                lemma_rows_map(kept@);
                assert(!rows_map(seen).contains_key(row.key@));
            }
            if (now as i128) - (self.rows[i].created as i128) < limit as i128 {
                let copy = Row {
                    key: self.rows[i].key.clone(),
                    text: self.rows[i].text.clone(),
                    created: self.rows[i].created,
                };
                kept.push(copy);
                assert(kept@.drop_last() =~= kept_before);
            }
            proof {
                assert(rows_map(kept@) =~= younger(
                    rows_map(self.rows@.take(i + 1)),
                    now as int,
                    limit as int,
                ));
            }
            i += 1;
        }
        assert(self.rows@.take(self.rows@.len() as int) =~= self.rows@);
        self.rows = kept;
    }
}

proof fn lemma_replaced(
    before: Seq<Row>,
    after: Seq<Row>,
    i: int,
    key: Seq<char>,
    value: (Seq<char>, i64),
)
    requires
        distinct(before),
        0 <= i < before.len(),
        after.len() == before.len(),
        forall|j: int| 0 <= j < before.len() && j != i ==> #[trigger] after[j] == before[j],
        before[i].key@ == key,
        after[i].key@ == key,
        (after[i].text@, after[i].created) == value,
    ensures
        distinct(after),
        rows_map(after) == rows_map(before).insert(key, value),
{
    assert forall|j: int, k: int| 0 <= j < k < after.len() implies after[j].key@
        != after[k].key@ by {
        assert(before[j].key@ != before[k].key@);
    }
    lemma_rows_map(before);
    lemma_rows_map(after);
    let m = rows_map(before).insert(key, value);
    assert forall|k: Seq<char>| rows_map(after).contains_key(k) == m.contains_key(k) by {
        if rows_map(after).contains_key(k) {
            let j = choose|j: int| 0 <= j < after.len() && (#[trigger] after[j]).key@ == k;
            assert(before[j].key@ == k);
        }
        if rows_map(before).contains_key(k) {
            let j = choose|j: int| 0 <= j < before.len() && (#[trigger] before[j]).key@ == k;
            assert(after[j].key@ == k);
        }
        assert(after[i].key@ == key);
    }
    assert forall|k: Seq<char>| rows_map(after).contains_key(k) implies rows_map(after)[k]
        == m[k] by {
        let j = choose|j: int| 0 <= j < after.len() && (#[trigger] after[j]).key@ == k;
        assert(before[j].key@ == k);
    }
    assert(rows_map(after) =~= m);
}

proof fn lemma_removed(before: Seq<Row>, i: int)
    requires
        distinct(before),
        0 <= i < before.len(),
    ensures
        distinct(before.remove(i)),
        rows_map(before.remove(i)) == rows_map(before).remove(before[i].key@),
{
    let after = before.remove(i);
    let key = before[i].key@;
    lemma_rows_map(before);
    assert forall|j: int, k: int| 0 <= j < k < after.len() implies after[j].key@
        != after[k].key@ by {
        let j0 = if j < i {
            j
        } else {
            j + 1
        };
        let k0 = if k < i {
            k
        } else {
            k + 1
        };
        assert(before[j0].key@ != before[k0].key@);
    }
    lemma_rows_map(after);
    let m = rows_map(before).remove(key);
    assert forall|k: Seq<char>| rows_map(after).contains_key(k) == m.contains_key(k) by {
        if rows_map(after).contains_key(k) {
            let j = choose|j: int| 0 <= j < after.len() && (#[trigger] after[j]).key@ == k;
            let j0 = if j < i {
                j
            } else {
                j + 1
            };
            assert(before[j0].key@ == k);
        }
        if m.contains_key(k) {
            let j = choose|j: int| 0 <= j < before.len() && (#[trigger] before[j]).key@ == k;
            let j1 = if j < i {
                j
            } else {
                j - 1
            };
            assert(after[j1].key@ == k);
        }
    }
    assert forall|k: Seq<char>| rows_map(after).contains_key(k) implies rows_map(after)[k]
        == m[k] by {
        let j = choose|j: int| 0 <= j < after.len() && (#[trigger] after[j]).key@ == k;
        let j0 = if j < i {
            j
        } else {
            j + 1
        };
        assert(before[j0] == after[j]);
    }
    assert(rows_map(after) =~= m);
}

/// What is younger stays as it is, and what is as old as the limit or older goes.
pub proof fn only_the_young_stay(m: TimedMap, now: int, limit: int, key: Seq<char>)
    ensures
        younger(m, now, limit).contains_key(key) <==> m.contains_key(key) && now - m[key].1 < limit,
        younger(m, now, limit).contains_key(key) ==> younger(m, now, limit)[key] == m[key],
{
}

} // verus!
