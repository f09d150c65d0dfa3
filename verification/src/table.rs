//! Frequency tables: occurrence counts keyed by UTF-8 byte strings.
//!
//! A table is an association list with unique keys, every key valid UTF-8,
//! and a total count that fits in `u64`.  Counting walks the list from the
//! front, so the model needs no key order.

use vstd::prelude::*;

use crate::bytes::bytes_eq;
use crate::utf8::utf8_ok;

verus! {

/// The views of a sequence of table entries.
pub open spec fn entry_views(s: Seq<(Vec<u8>, u64)>) -> Seq<(Seq<u8>, u64)> {
    s.map_values(|e: (Vec<u8>, u64)| (e.0@, e.1))
}

/// The count stored under key `k` in an association list; zero if absent.
pub open spec fn assoc_count(s: Seq<(Seq<u8>, u64)>, k: Seq<u8>) -> int
    decreases s.len(),
{
    if s.len() == 0 {
        0
    } else if s[0].0 == k {
        s[0].1 as int
    } else {
        assoc_count(s.skip(1), k)
    }
}

/// The sum of all counts in an association list.
pub open spec fn assoc_total(s: Seq<(Seq<u8>, u64)>) -> int
    decreases s.len(),
{
    if s.len() == 0 {
        0
    } else {
        s[0].1 + assoc_total(s.skip(1))
    }
}

pub proof fn lemma_assoc_total_nonneg(s: Seq<(Seq<u8>, u64)>)
    ensures
        assoc_total(s) >= 0,
    decreases s.len(),
{
    if s.len() > 0 {
        lemma_assoc_total_nonneg(s.skip(1));
    }
}

/// The count under `k` is what the first entry keyed `k` stores.
proof fn lemma_assoc_count_at(s: Seq<(Seq<u8>, u64)>, k: Seq<u8>, i: int)
    requires
        0 <= i < s.len(),
        s[i].0 == k,
        forall|j: int| 0 <= j < i ==> s[j].0 != k,
    ensures
        assoc_count(s, k) == s[i].1,
    decreases i,
{
    if i > 0 {
        assert(forall|j: int| 0 <= j < i - 1 ==> s.skip(1)[j] == s[j + 1]);
        lemma_assoc_count_at(s.skip(1), k, i - 1);
    }
}

/// A key on no entry counts zero.
proof fn lemma_assoc_count_absent(s: Seq<(Seq<u8>, u64)>, k: Seq<u8>)
    requires
        forall|i: int| 0 <= i < s.len() ==> s[i].0 != k,
    ensures
        assoc_count(s, k) == 0,
    decreases s.len(),
{
    if s.len() > 0 {
        lemma_assoc_count_absent(s.skip(1), k);
    }
}

/// No single count exceeds the total.
pub proof fn lemma_count_le_total(s: Seq<(Seq<u8>, u64)>, k: Seq<u8>)
    ensures
        0 <= assoc_count(s, k) <= assoc_total(s),
    decreases s.len(),
{
    if s.len() > 0 {
        lemma_count_le_total(s.skip(1), k);
        lemma_assoc_total_nonneg(s.skip(1));
    }
}

/// Replacing the first entry keyed `k` changes that count and no other.
proof fn lemma_assoc_update(s: Seq<(Seq<u8>, u64)>, k: Seq<u8>, i: int, c2: u64)
    requires
        0 <= i < s.len(),
        s[i].0 == k,
        forall|j: int| 0 <= j < i ==> s[j].0 != k,
    ensures
        assoc_count(s.update(i, (k, c2)), k) == c2,
        forall|k2: Seq<u8>| k2 != k ==> assoc_count(s.update(i, (k, c2)), k2) == assoc_count(
            s,
            k2,
        ),
        assoc_total(s.update(i, (k, c2))) == assoc_total(s) - s[i].1 + c2,
    decreases i,
{
    let u = s.update(i, (k, c2));
    if i == 0 {
        assert(u.skip(1) =~= s.skip(1));
        assert(u[0].0 == k && u[0].1 == c2);
        assert forall|k2: Seq<u8>| k2 != k implies assoc_count(u, k2) == assoc_count(
            s,
            k2,
        ) by {
            assert(assoc_count(u, k2) == assoc_count(u.skip(1), k2));
            assert(assoc_count(s, k2) == assoc_count(s.skip(1), k2));
        }
    } else {
        assert(forall|j: int| 0 <= j < i - 1 ==> s.skip(1)[j] == s[j + 1]);
        lemma_assoc_update(s.skip(1), k, i - 1, c2);
        assert(u.skip(1) =~= s.skip(1).update(i - 1, (k, c2)));
        assert(u[0] == s[0]);
        assert(s[0].0 != k);
        assert(assoc_count(u, k) == assoc_count(u.skip(1), k));
        assert forall|k2: Seq<u8>| k2 != k implies assoc_count(u, k2) == assoc_count(
            s,
            k2,
        ) by {
            if s[0].0 == k2 {
                assert(assoc_count(u, k2) == u[0].1);
                assert(assoc_count(s, k2) == s[0].1);
            } else {
                assert(assoc_count(u, k2) == assoc_count(u.skip(1), k2));
                assert(assoc_count(s, k2) == assoc_count(s.skip(1), k2));
            }
        }
        assert(assoc_total(u) == u[0].1 + assoc_total(u.skip(1)));
        assert(assoc_total(s) == s[0].1 + assoc_total(s.skip(1)));
        assert(s.skip(1)[i - 1] == s[i]);
    }
}

/// Appending an entry with a fresh key adds its count and touches no other.
proof fn lemma_assoc_push(s: Seq<(Seq<u8>, u64)>, k: Seq<u8>, c: u64)
    requires
        forall|i: int| 0 <= i < s.len() ==> s[i].0 != k,
    ensures
        assoc_count(s.push((k, c)), k) == c,
        forall|k2: Seq<u8>| k2 != k ==> assoc_count(s.push((k, c)), k2) == assoc_count(s, k2),
        assoc_total(s.push((k, c))) == assoc_total(s) + c,
    decreases s.len(),
{
    let u = s.push((k, c));
    if s.len() == 0 {
        assert(u.skip(1) =~= Seq::<(Seq<u8>, u64)>::empty());
        assert(u[0].0 == k && u[0].1 == c);
        assert forall|k2: Seq<u8>| k2 != k implies assoc_count(u, k2) == assoc_count(
            s,
            k2,
        ) by {
            assert(assoc_count(u, k2) == assoc_count(u.skip(1), k2));
        }
        assert(assoc_total(u) == u[0].1 + assoc_total(u.skip(1)));
    } else {
        assert(forall|j: int| 0 <= j < s.len() - 1 ==> s.skip(1)[j] == s[j + 1]);
        lemma_assoc_push(s.skip(1), k, c);
        assert(u.skip(1) =~= s.skip(1).push((k, c)));
        assert(u[0] == s[0]);
        assert(s[0].0 != k);
        assert(assoc_count(u, k) == assoc_count(u.skip(1), k));
        assert forall|k2: Seq<u8>| k2 != k implies assoc_count(u, k2) == assoc_count(
            s,
            k2,
        ) by {
            if s[0].0 == k2 {
                assert(assoc_count(u, k2) == u[0].1);
                assert(assoc_count(s, k2) == s[0].1);
            } else {
                assert(assoc_count(u, k2) == assoc_count(u.skip(1), k2));
                assert(assoc_count(s, k2) == assoc_count(s.skip(1), k2));
            }
        }
        assert(assoc_total(u) == u[0].1 + assoc_total(u.skip(1)));
        assert(assoc_total(s) == s[0].1 + assoc_total(s.skip(1)));
    }
}

/// The total splits around any cut point.
pub proof fn lemma_total_split(s: Seq<(Seq<u8>, u64)>, i: int)
    requires
        0 <= i <= s.len(),
    ensures
        assoc_total(s) == assoc_total(s.take(i)) + assoc_total(s.skip(i)),
    decreases i,
{
    if i == 0 {
        assert(s.take(0) =~= Seq::<(Seq<u8>, u64)>::empty());
        assert(s.skip(0) =~= s);
    } else {
        lemma_total_split(s.skip(1), i - 1);
        assert(s.take(i).skip(1) =~= s.skip(1).take(i - 1));
        assert(s.skip(1).skip(i - 1) =~= s.skip(i));
        assert(s.take(i)[0] == s[0]);
        assert(assoc_total(s.take(i)) == s[0].1 + assoc_total(s.skip(1).take(i - 1)));
    }
}

/// One frequency table.
pub struct FreqTable {
    entries: Vec<(Vec<u8>, u64)>,
}

impl FreqTable {
    /// The table's model: the entry views, in insertion order.
    pub closed spec fn model(self) -> Seq<(Seq<u8>, u64)> {
        entry_views(self.entries@)
    }

    /// The count recorded under key `k`; zero if the key is absent.
    pub open spec fn count_of(self, k: Seq<u8>) -> int {
        assoc_count(self.model(), k)
    }

    /// The sum of all counts.
    pub open spec fn total(self) -> int {
        assoc_total(self.model())
    }

    /// Keys are unique and valid UTF-8, and the total fits in a `u64`.
    pub closed spec fn wf(self) -> bool {
        &&& forall|i: int, j: int|
            0 <= i < j < self.model().len() ==> self.model()[i].0 != self.model()[j].0
        &&& forall|i: int| 0 <= i < self.model().len() ==> utf8_ok(#[trigger] self.model()[i].0)
        &&& assoc_total(self.model()) <= u64::MAX
    }

    /// An empty table.
    pub fn new() -> (t: Self)
        ensures
            t.wf(),
            t.total() == 0,
            t.model().len() == 0,
            forall|k: Seq<u8>| t.count_of(k) == 0,
    {
        let t = FreqTable { entries: Vec::new() };
        proof {
            assert(t.model() =~= Seq::<(Seq<u8>, u64)>::empty());
        }
        t
    }

    /// How many distinct keys the table holds.
    pub fn len(&self) -> (r: usize)
        ensures
            r == self.model().len(),
    {
        self.entries.len()
    }

    /// Reads the count recorded under a key.
    pub fn count(&self, key: &Vec<u8>) -> (r: u64)
        ensures
            r as int == self.count_of(key@),
    {
        let mut i: usize = 0;
        while i < self.entries.len()
            invariant
                i <= self.entries@.len(),
                forall|j: int| 0 <= j < i ==> self.model()[j].0 != key@,
            decreases self.entries@.len() - i,
        {
            if bytes_eq(&self.entries[i].0, key) {
                proof {
                    lemma_assoc_count_at(self.model(), key@, i as int);
                }
                return self.entries[i].1;
            }
            i += 1;
        }
        proof {
            lemma_assoc_count_absent(self.model(), key@);
        }
        0
    }

    /// The sum of all counts.
    pub fn total_count(&self) -> (r: u64)
        requires
            self.wf(),
        ensures
            r as int == self.total(),
    {
        let ghost m = self.model();
        let mut sum: u64 = 0;
        let mut i: usize = 0;
        proof {
            assert(m.skip(0) =~= m);
        }
        while i < self.entries.len()
            invariant
                m == self.model(),
                self.wf(),
                i <= self.entries@.len(),
                sum as int == assoc_total(m) - assoc_total(m.skip(i as int)),
            decreases self.entries@.len() - i,
        {
            proof {
                assert(m.skip(i as int)[0] == m[i as int]);
                assert(m.skip(i as int).skip(1) =~= m.skip(i as int + 1));
                assert(assoc_total(m.skip(i as int)) == m[i as int].1 + assoc_total(
                    m.skip(i as int + 1),
                ));
                lemma_assoc_total_nonneg(m.skip(i as int + 1));
                lemma_total_split(m, i as int);
                lemma_assoc_total_nonneg(m.take(i as int));
            }
            sum = sum + self.entries[i].1;
            i += 1;
        }
        proof {
            assert(m.skip(self.entries@.len() as int) =~= Seq::<(Seq<u8>, u64)>::empty());
        }
        sum
    }

    /// Records one more occurrence of `key`: an existing entry is raised by
    /// one, a fresh key starts at one.  No other count changes.
    pub fn bump(&mut self, key: Vec<u8>)
        requires
            old(self).wf(),
            utf8_ok(key@),
            old(self).total() < u64::MAX,
        ensures
            final(self).wf(),
            final(self).count_of(key@) == old(self).count_of(key@) + 1,
            forall|k: Seq<u8>| k != key@ ==> final(self).count_of(k) == old(self).count_of(k),
            final(self).total() == old(self).total() + 1,
    {
        let ghost m = old(self).model();
        let mut i: usize = 0;
        while i < self.entries.len()
            invariant
                *self == *old(self),
                m == self.model(),
                self.wf(),
                utf8_ok(key@),
                assoc_total(m) < u64::MAX,
                i <= self.entries@.len(),
                forall|j: int| 0 <= j < i ==> self.model()[j].0 != key@,
            decreases self.entries@.len() - i,
        {
            if bytes_eq(&self.entries[i].0, &key) {
                proof {
                    lemma_assoc_count_at(m, key@, i as int);
                    lemma_count_le_total(m, key@);
                }
                let c = self.entries[i].1;
                self.entries[i] = (key, c + 1);
                proof {
                    assert(self.model() =~= m.update(i as int, (m[i as int].0, (c + 1) as u64)));
                    lemma_assoc_update(m, m[i as int].0, i as int, (c + 1) as u64);
                }
                return ;
            }
            i += 1;
        }
        proof {
            lemma_assoc_count_absent(m, key@);
        }
        self.entries.push((key, 1));
        proof {
            assert(self.model() =~= m.push((key@, 1u64)));
            lemma_assoc_push(m, key@, 1u64);
        }
    }

    /// The table's entries, for ranking.
    pub(crate) fn entries_ref(&self) -> (r: &Vec<(Vec<u8>, u64)>)
        ensures
            entry_views(r@) == self.model(),
    {
        &self.entries
    }
}

} // verus!
