//! Ranking of frequency tables for reporting.
//!
//! Reports list `(count, key)` pairs in descending order of count; equal
//! counts are broken by descending lexical order of the key.

use vstd::prelude::*;

use crate::bytes::copy_bytes;
use crate::table::FreqTable;

verus! {

/// Lexicographic order on byte strings; a proper prefix comes first.
pub open spec fn bytes_le(a: Seq<u8>, b: Seq<u8>) -> bool
    decreases a.len(),
{
    if a.len() == 0 {
        true
    } else if b.len() == 0 {
        false
    } else if a[0] < b[0] {
        true
    } else if a[0] > b[0] {
        false
    } else {
        bytes_le(a.skip(1), b.skip(1))
    }
}

/// The report order on `(count, key)` pairs: by count, ties by key.
pub open spec fn pair_le(x: (u64, Seq<u8>), y: (u64, Seq<u8>)) -> bool {
    x.0 < y.0 || (x.0 == y.0 && bytes_le(x.1, y.1))
}

pub proof fn lemma_bytes_le_total(a: Seq<u8>, b: Seq<u8>)
    ensures
        bytes_le(a, b) || bytes_le(b, a),
    decreases a.len(),
{
    if a.len() > 0 && b.len() > 0 && a[0] == b[0] {
        lemma_bytes_le_total(a.skip(1), b.skip(1));
    }
}

pub proof fn lemma_bytes_le_trans(a: Seq<u8>, b: Seq<u8>, c: Seq<u8>)
    requires
        bytes_le(a, b),
        bytes_le(b, c),
    ensures
        bytes_le(a, c),
    decreases a.len(),
{
    if a.len() > 0 && b.len() > 0 && c.len() > 0 && a[0] == b[0] && b[0] == c[0] {
        lemma_bytes_le_trans(a.skip(1), b.skip(1), c.skip(1));
    }
}

pub proof fn lemma_pair_le_total(x: (u64, Seq<u8>), y: (u64, Seq<u8>))
    ensures
        pair_le(x, y) || pair_le(y, x),
{
    lemma_bytes_le_total(x.1, y.1);
}

pub proof fn lemma_pair_le_trans(x: (u64, Seq<u8>), y: (u64, Seq<u8>), z: (u64, Seq<u8>))
    requires
        pair_le(x, y),
        pair_le(y, z),
    ensures
        pair_le(x, z),
{
    if x.0 == y.0 && y.0 == z.0 {
        lemma_bytes_le_trans(x.1, y.1, z.1);
    }
}

/// The views of a sequence of `(count, key)` pairs.
pub open spec fn pair_views(s: Seq<(u64, Vec<u8>)>) -> Seq<(u64, Seq<u8>)> {
    s.map_values(|p: (u64, Vec<u8>)| (p.0, p.1@))
}

/// Table entries turned into `(count, key)` pairs.
pub open spec fn table_pairs(m: Seq<(Seq<u8>, u64)>) -> Seq<(u64, Seq<u8>)> {
    m.map_values(|e: (Seq<u8>, u64)| (e.1, e.0))
}

/// Sorted for the report: descending counts, ties by descending key.
pub open spec fn sorted_desc(s: Seq<(u64, Seq<u8>)>) -> bool {
    forall|i: int, j: int| 0 <= i < j < s.len() ==> pair_le(s[j], s[i])
}

/// Lexicographic comparison of two byte vectors.
fn bytes_le_exec(a: &Vec<u8>, b: &Vec<u8>) -> (r: bool)
    ensures
        r == bytes_le(a@, b@),
{
    let mut i: usize = 0;
    proof {
        assert(a@.skip(0) =~= a@);
        assert(b@.skip(0) =~= b@);
    }
    while i < a.len() && i < b.len()
        invariant
            i <= a@.len(),
            i <= b@.len(),
            bytes_le(a@, b@) == bytes_le(a@.skip(i as int), b@.skip(i as int)),
        decreases a@.len() - i,
    {
        proof {
            assert(a@.skip(i as int)[0] == a@[i as int]);
            assert(b@.skip(i as int)[0] == b@[i as int]);
        }
        if a[i] < b[i] {
            return true;
        }
        if a[i] > b[i] {
            return false;
        }
        i += 1;
        proof {
            assert(a@.skip(i - 1).skip(1) =~= a@.skip(i as int));
            assert(b@.skip(i - 1).skip(1) =~= b@.skip(i as int));
        }
    }
    if i == a.len() {
        proof {
            assert(a@.skip(i as int).len() == 0);
        }
        true
    } else {
        proof {
            assert(a@.skip(i as int).len() > 0);
            assert(b@.skip(i as int).len() == 0);
        }
        false
    }
}

/// Comparison of two `(count, key)` pairs in report order.
fn pair_le_exec(x: &(u64, Vec<u8>), y: &(u64, Vec<u8>)) -> (r: bool)
    ensures
        r == pair_le((x.0, x.1@), (y.0, y.1@)),
{
    if x.0 < y.0 {
        true
    } else if x.0 == y.0 {
        bytes_le_exec(&x.1, &y.1)
    } else {
        false
    }
}

/// Inserting an element at its place keeps the report order.
proof fn lemma_sorted_insert(s: Seq<(u64, Seq<u8>)>, p: int, x: (u64, Seq<u8>))
    requires
        sorted_desc(s),
        0 <= p <= s.len(),
        forall|j: int| 0 <= j < p ==> pair_le(x, #[trigger] s[j]),
        forall|j: int| p <= j < s.len() ==> pair_le(#[trigger] s[j], x),
    ensures
        sorted_desc(s.insert(p, x)),
{
    let u = s.insert(p, x);
    s.insert_ensures(p, x);
    assert forall|i: int, j: int| 0 <= i < j < u.len() implies pair_le(u[j], u[i]) by {
        if j < p {
            assert(u[i] == s[i] && u[j] == s[j]);
        } else if i < p && j == p {
            assert(u[i] == s[i] && u[j] == x);
        } else if i < p && j > p {
            assert(u[i] == s[i] && u[j] == s[j - 1]);
            if p <= j - 1 {
                lemma_pair_le_trans(s[j - 1], x, s[i]);
            }
        } else if i == p {
            assert(u[i] == x && u[j] == s[j - 1]);
        } else {
            assert(u[i] == s[i - 1] && u[j] == s[j - 1]);
        }
    }
}

/// The table's entries as `(count, key)` pairs, sorted descending by count,
/// equal counts by descending key: exactly the table's entries, in report
/// order.
pub fn ranked(t: &FreqTable) -> (r: Vec<(u64, Vec<u8>)>)
    ensures
        sorted_desc(pair_views(r@)),
        pair_views(r@).to_multiset() == table_pairs(t.model()).to_multiset(),
{
    let ghost m = t.model();
    let entries = t.entries_ref();
    let mut out: Vec<(u64, Vec<u8>)> = Vec::new();
    let mut i: usize = 0;
    proof {
        broadcast use vstd::seq_lib::group_to_multiset_ensures;

        assert(pair_views(out@) =~= Seq::<(u64, Seq<u8>)>::empty());
        assert(table_pairs(m).take(0) =~= Seq::<(u64, Seq<u8>)>::empty());
        assert(pair_views(out@).to_multiset() =~= table_pairs(m).take(0).to_multiset());
    }
    while i < entries.len()
        invariant
            crate::table::entry_views(entries@) == m,
            i <= entries@.len(),
            sorted_desc(pair_views(out@)),
            pair_views(out@).to_multiset() == table_pairs(m).take(i as int).to_multiset(),
        decreases entries@.len() - i,
    {
        broadcast use vstd::seq_lib::group_to_multiset_ensures;

        let item = (entries[i].1, copy_bytes(&entries[i].0));
        let ghost iv = (item.0, item.1@);
        proof {
            assert(iv == table_pairs(m)[i as int]);
        }
        let ghost before = pair_views(out@);
        let mut p: usize = 0;
        while p < out.len()
            invariant
                sorted_desc(before),
                out@.len() == before.len(),
                pair_views(out@) == before,
                iv == (item.0, item.1@),
                p <= out@.len(),
                forall|j: int| 0 <= j < p ==> pair_le(iv, #[trigger] before[j]),
            ensures
                p <= out@.len(),
                pair_views(out@) == before,
                iv == (item.0, item.1@),
                forall|j: int| 0 <= j < p ==> pair_le(iv, #[trigger] before[j]),
                forall|j: int| p <= j < before.len() ==> pair_le(#[trigger] before[j], iv),
            decreases out@.len() - p,
        {
            if pair_le_exec(&out[p], &item) {
                proof {
                    assert(pair_le(before[p as int], iv));
                    assert forall|j: int| p <= j < before.len() implies pair_le(
                        #[trigger] before[j],
                        iv,
                    ) by {
                        if j > p {
                            lemma_pair_le_trans(before[j], before[p as int], iv);
                        }
                    }
                }
                break ;
            }
            proof {
                lemma_pair_le_total(iv, before[p as int]);
            }
            p += 1;
        }
        proof {
            lemma_sorted_insert(before, p as int, iv);
        }
        out.insert(p, item);
        i += 1;
        proof {
            let after = pair_views(out@);
            assert(after =~= before.insert(p as int, iv));
            before.insert_ensures(p as int, iv);
            assert(after.remove(p as int) =~= before);
            assert(after.to_multiset().remove(iv) =~= before.to_multiset());
            assert(after[p as int] == iv);
            assert(after.to_multiset().count(iv) > 0);
            assert(after.to_multiset() =~= before.to_multiset().insert(iv));
            assert(table_pairs(m).take(i as int) =~= table_pairs(m).take(i - 1).push(
                table_pairs(m)[i - 1],
            ));
            assert(table_pairs(m).take(i as int).to_multiset() =~= table_pairs(m).take(
                i - 1,
            ).to_multiset().insert(iv));
        }
    }
    proof {
        assert(table_pairs(m).take(entries@.len() as int) =~= table_pairs(m));
    }
    out
}

} // verus!
