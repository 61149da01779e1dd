//! A map keyed by strings, kept as a list of rows in which no key occurs twice.

use vstd::prelude::*;
use crate::text::str_equal;

verus! {

/// The map that a list of rows stands for; of two rows with one key the later
/// counts.
pub open spec fn rows_map<V>(rows: Seq<(String, V)>) -> Map<Seq<char>, V>
    decreases rows.len(),
{
    if rows.len() == 0 {
        Map::empty()
    } else {
        rows_map(rows.drop_last()).insert(rows.last().0@, rows.last().1)
    }
}

/// No key occurs in two rows.
pub open spec fn distinct_keys<V>(rows: Seq<(String, V)>) -> bool {
    forall|i: int, j: int| 0 <= i < j < rows.len() ==> (#[trigger] rows[i]).0@ != (#[trigger] rows[j]).0@
}

/// The keys of the map are the keys of the rows.
pub proof fn lemma_rows_map_keys<V>(rows: Seq<(String, V)>)
    ensures
        forall|k: Seq<char>| #[trigger]
            rows_map(rows).contains_key(k) <==> exists|i: int|
                0 <= i < rows.len() && (#[trigger] rows[i]).0@ == k,
        rows_map(rows).dom().finite(),
    decreases rows.len(),
{
    if rows.len() > 0 {
        let head = rows.drop_last();
        lemma_rows_map_keys(head);
        assert forall|k: Seq<char>| #[trigger]
            rows_map(rows).contains_key(k) <==> exists|i: int|
                0 <= i < rows.len() && (#[trigger] rows[i]).0@ == k by {
            if rows_map(rows).contains_key(k) {
                if k == rows.last().0@ {
                    assert(rows[rows.len() - 1].0@ == k);
                } else {
                    assert(rows_map(head).contains_key(k));
                    let i = choose|i: int| 0 <= i < head.len() && (#[trigger] head[i]).0@ == k;
                    assert(rows[i].0@ == k);
                }
            }
            if exists|i: int| 0 <= i < rows.len() && (#[trigger] rows[i]).0@ == k {
                let i = choose|i: int| 0 <= i < rows.len() && (#[trigger] rows[i]).0@ == k;
                if i < rows.len() - 1 {
                    assert(head[i].0@ == k);
                }
            }
        }
    }
}

/// Where no key occurs twice, each row is an entry of the map, and the map
/// has as many entries as there are rows.
pub proof fn lemma_rows_map_distinct<V>(rows: Seq<(String, V)>)
    requires
        distinct_keys(rows),
    ensures
        forall|i: int|
            0 <= i < rows.len() ==> rows_map(rows).contains_key((#[trigger] rows[i]).0@)
                && rows_map(rows)[rows[i].0@] == rows[i].1,
        rows_map(rows).dom().finite(),
        rows_map(rows).dom().len() == rows.len(),
    decreases rows.len(),
{
    if rows.len() > 0 {
        let head = rows.drop_last();
        assert(distinct_keys(head)) by {
            assert forall|i: int, j: int| 0 <= i < j < head.len() implies (#[trigger] head[i]).0@ != (
            #[trigger] head[j]).0@ by {
                assert(head[i] == rows[i] && head[j] == rows[j]);
            }
        }
        lemma_rows_map_distinct(head);
        lemma_rows_map_keys(head);
        let k = rows.last().0@;
        if rows_map(head).contains_key(k) {
            let i = choose|i: int| 0 <= i < head.len() && (#[trigger] head[i]).0@ == k;
            assert(rows[i].0@ == rows[rows.len() - 1].0@);
        }
        assert forall|i: int| 0 <= i < rows.len() implies rows_map(rows).contains_key(
            (#[trigger] rows[i]).0@,
        ) && rows_map(rows)[rows[i].0@] == rows[i].1 by {
            if i < rows.len() - 1 {
                assert(head[i] == rows[i]);
                assert(rows[i].0@ != rows[rows.len() - 1].0@);
            }
        }
    }
}

/// A map from strings to values.
pub struct StrMap<V> {
    rows: Vec<(String, V)>,
}

impl<V> View for StrMap<V> {
    type V = Map<Seq<char>, V>;

    closed spec fn view(&self) -> Map<Seq<char>, V> {
        rows_map(self.rows@)
    }
}

impl<V> StrMap<V> {
    /// No key occurs in two rows.
    #[verifier::type_invariant]
    spec fn no_key_twice(self) -> bool {
        distinct_keys(self.rows@)
    }

    /// The empty map.
    pub fn new() -> (m: Self)
        ensures
            m@ == Map::<Seq<char>, V>::empty(),
    {
        StrMap { rows: Vec::new() }
    }

    /// The number of entries.
    pub fn len(&self) -> (n: usize)
        ensures
            self@.dom().finite(),
            n == self@.dom().len(),
    {
        proof {
            use_type_invariant(self);
            lemma_rows_map_distinct(self.rows@);
        }
        self.rows.len()
    }

    /// The index of the row with key `key`.
    fn position(&self, key: &str) -> (r: Option<usize>)
        ensures
            match r {
                Some(i) => i < self.rows.len() && self.rows@[i as int].0@ == key@,
                None => forall|i: int| 0 <= i < self.rows.len() ==> self.rows@[i].0@ != key@,
            },
    {
        let mut i: usize = 0;
        while i < self.rows.len()
            invariant
                i <= self.rows.len(),
                forall|j: int| 0 <= j < i ==> self.rows@[j].0@ != key@,
            decreases self.rows.len() - i,
        {
            if str_equal(self.rows[i].0.as_str(), key) {
                return Some(i);
            }
            i += 1;
        }
        None
    }

    /// The value under `key`, if there is one.
    pub fn get(&self, key: &str) -> (r: Option<&V>)
        ensures
            match r {
                Some(v) => self@.contains_key(key@) && *v == self@[key@],
                None => !self@.contains_key(key@),
            },
    {
        proof {
            use_type_invariant(self);
            lemma_rows_map_distinct(self.rows@);
            lemma_rows_map_keys(self.rows@);
        }
        match self.position(key) {
            Some(i) => Some(&self.rows[i].1),
            None => None,
        }
    }

    /// Whether there is a value under `key`.
    pub fn contains_key(&self, key: &str) -> (b: bool)
        ensures
            b == self@.contains_key(key@),
    {
        self.get(key).is_some()
    }

    /// Puts `value` under `key`, in place of what was there.
    pub fn insert(&mut self, key: String, value: V)
        ensures
            final(self)@ == old(self)@.insert(key@, value),
    {
        proof {
            use_type_invariant(&*self);
        }
        let ghost before = self.rows@;
        let found = self.position(key.as_str());
        let mut rows: Vec<(String, V)> = Vec::new();
        core::mem::swap(&mut self.rows, &mut rows);
        match found {
            Some(i) => {
                let _ = rows.remove(i);
                proof {
                    lemma_rows_without(before, i as int);
                }
            },
            None => {
                proof {
                    lemma_rows_map_keys(before);
                    assert(rows_map(before).remove(key@) =~= rows_map(before));
                }
            },
        }
        let ghost mid = rows@;
        assert(distinct_keys(mid));
        assert(forall|j: int| 0 <= j < mid.len() ==> (#[trigger] mid[j]).0@ != key@);
        rows.push((key, value));
        proof {
            assert(rows@.drop_last() =~= mid);
            assert(rows_map(rows@) =~= rows_map(before).insert(key@, value));
        }
        core::mem::swap(&mut self.rows, &mut rows);
    }

    /// The rows of the map, one for each entry.
    pub fn rows(&self) -> (r: &Vec<(String, V)>)
        ensures
            distinct_keys(r@),
            rows_map(r@) == self@,
    {
        proof {
            use_type_invariant(self);
        }
        &self.rows
    }
}

/// Taking one row away takes its key out of the map, where no key occurs twice.
pub proof fn lemma_rows_without<V>(rows: Seq<(String, V)>, i: int)
    requires
        distinct_keys(rows),
        0 <= i < rows.len(),
    ensures
        distinct_keys(rows.remove(i)),
        rows_map(rows.remove(i)) == rows_map(rows).remove(rows[i].0@),
        forall|j: int|
            0 <= j < rows.remove(i).len() ==> (#[trigger] rows.remove(i)[j]).0@ != rows[i].0@,
{
    let rest = rows.remove(i);
    assert forall|a: int, b: int| 0 <= a < b < rest.len() implies (#[trigger] rest[a]).0@ != (
    #[trigger] rest[b]).0@ by {
        let a0 = if a < i { a } else { a + 1 };
        let b0 = if b < i { b } else { b + 1 };
        assert(rest[a] == rows[a0] && rest[b] == rows[b0]);
    }
    assert forall|j: int| 0 <= j < rest.len() implies (#[trigger] rest[j]).0@ != rows[i].0@ by {
        let j0 = if j < i { j } else { j + 1 };
        assert(rest[j] == rows[j0]);
    }
    lemma_rows_map_distinct(rows);
    lemma_rows_map_distinct(rest);
    lemma_rows_map_keys(rows);
    lemma_rows_map_keys(rest);
    let m = rows_map(rows).remove(rows[i].0@);
    assert forall|k: Seq<char>| rows_map(rest).contains_key(k) <==> m.contains_key(k) by {
        if rows_map(rest).contains_key(k) {
            let j = choose|j: int| 0 <= j < rest.len() && (#[trigger] rest[j]).0@ == k;
            let j0 = if j < i { j } else { j + 1 };
            assert(rest[j] == rows[j0]);
            assert(rows[j0].0@ == k);
        }
        if m.contains_key(k) {
            let j = choose|j: int| 0 <= j < rows.len() && (#[trigger] rows[j]).0@ == k;
            let j1 = if j < i { j } else { j - 1 };
            assert(rest[j1] == rows[j]);
        }
    }
    assert forall|k: Seq<char>| rows_map(rest).contains_key(k) implies rows_map(rest)[k] == m[k] by {
        let j = choose|j: int| 0 <= j < rest.len() && (#[trigger] rest[j]).0@ == k;
        let j0 = if j < i { j } else { j + 1 };
        assert(rest[j] == rows[j0]);
        assert(rows_map(rows)[rows[j0].0@] == rows[j0].1);
    }
    assert(rows_map(rest) =~= m);
}

} // verus!
