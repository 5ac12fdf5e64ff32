//! In-memory sorting of record buffers, and the uniqueness of key-sorted
//! output: the facts behind every sorted run and the final stream.

use vstd::prelude::*;
use vstd::multiset::Multiset;
use crate::codec::Entry;
use crate::codec::key_eq;
use crate::codec::key_le;

verus! {

/// A sequence of records in non-decreasing key order.
pub open spec fn sorted_by_key(s: Seq<Entry>) -> bool {
    forall|i: int, j: int| 0 <= i < j < s.len() ==> key_le(s[i], s[j])
}

/// Index of a record with a minimal key.
fn min_index(v: &Vec<Entry>) -> (m: usize)
    requires
        v@.len() >= 1,
    ensures
        m < v@.len(),
        forall|k: int| 0 <= k < v@.len() ==> key_le(v@[m as int], v@[k]),
{
    let mut m: usize = 0;
    let mut i: usize = 1;
    while i < v.len()
        invariant
            1 <= i <= v@.len(),
            m < i,
            forall|k: int| 0 <= k < i ==> key_le(v@[m as int], v@[k]),
        decreases v@.len() - i,
    {
        let a = v[m];
        let b = v[i];
        if !a.key_le(&b) {
            m = i;
        }
        i += 1;
    }
    m
}

/// Sorts a buffer of records into non-decreasing key order by repeatedly
/// extracting a minimal element. The result holds exactly the input
/// records: sorting is a pure reordering.
pub fn sort_entries(v: Vec<Entry>) -> (r: Vec<Entry>)
    ensures
        sorted_by_key(r@),
        r@.to_multiset() == v@.to_multiset(),
        r@.len() == v@.len(),
{
    broadcast use vstd::seq_lib::group_to_multiset_ensures;

    let ghost orig = v@;
    let mut rest = v;
    let mut out: Vec<Entry> = Vec::new();
    while rest.len() > 0
        invariant
            out@.to_multiset().add(rest@.to_multiset()) =~= orig.to_multiset(),
            sorted_by_key(out@),
            forall|a: int, b: int|
                0 <= a < out@.len() && 0 <= b < rest@.len() ==> key_le(out@[a], rest@[b]),
            out@.len() + rest@.len() == orig.len(),
        decreases rest@.len(),
    {
        broadcast use vstd::seq_lib::group_to_multiset_ensures;

        let m = min_index(&rest);
        let ghost before = rest@;
        let e = rest.remove(m);
        out.push(e);
        proof {
            assert(rest@.to_multiset() =~= before.to_multiset().remove(e));
            assert(out@.to_multiset().add(rest@.to_multiset()) =~= orig.to_multiset());
        }
    }
    proof {
        assert(out@.to_multiset() =~= orig.to_multiset());
    }
    out
}

/// No key of `m` is carried by two different records: whenever two members
/// share a key, they are the same record, count included.
pub open spec fn key_determines_record(m: Multiset<Entry>) -> bool {
    forall|a: Entry, b: Entry|
        #[trigger] m.contains(a) && #[trigger] m.contains(b) && key_eq(a, b) ==> a == b
}

/// Key-sorted output is unique: two key-sorted sequences carrying the same
/// multiset of records are equal, provided that multiset never pairs one
/// key with two different records. In particular, the sorted stream this
/// engine emits is independent of the generator buffer capacity and of the
/// merge window capacity, since those only influence how the input is cut
/// into runs, never the multiset carried or the final order.
pub proof fn lemma_sorted_output_unique(s1: Seq<Entry>, s2: Seq<Entry>)
    requires
        sorted_by_key(s1),
        sorted_by_key(s2),
        s1.to_multiset() == s2.to_multiset(),
        key_determines_record(s1.to_multiset()),
    ensures
        s1 == s2,
    decreases s1.len(),
{
    broadcast use vstd::seq_lib::group_to_multiset_ensures;

    assert(s1.to_multiset().len() == s1.len());
    assert(s2.to_multiset().len() == s2.len());
    if s1.len() == 0 {
        assert(s2.len() == 0);
        assert(s1 =~= s2);
    } else {
        assert(s2.len() == s1.len());
        let a = s1[0];
        let b = s2[0];
        assert(s2.contains(b));
        assert(s1.to_multiset().count(b) > 0);
        assert(s1.contains(b));
        let jb = choose|j: int| 0 <= j < s1.len() && s1[j] == b;
        assert(key_le(a, b));
        assert(s1.contains(a));
        assert(s2.to_multiset().count(a) > 0);
        assert(s2.contains(a));
        let ja = choose|j: int| 0 <= j < s2.len() && s2[j] == a;
        assert(key_le(b, a));
        assert(key_eq(a, b));
        assert(s1.to_multiset().contains(a) && s1.to_multiset().contains(b));
        assert(a == b);
        let t1 = s1.drop_first();
        let t2 = s2.drop_first();
        assert(s1.remove(0) =~= t1);
        assert(s2.remove(0) =~= t2);
        assert(t1.to_multiset() =~= s1.to_multiset().remove(a));
        assert(t2.to_multiset() =~= s2.to_multiset().remove(a));
        assert(sorted_by_key(t1)) by {
            assert(forall|i: int| 0 <= i < t1.len() ==> t1[i] == s1[i + 1]);
        }
        assert(sorted_by_key(t2)) by {
            assert(forall|i: int| 0 <= i < t2.len() ==> t2[i] == s2[i + 1]);
        }
        assert(key_determines_record(t1.to_multiset())) by {
            assert forall|x: Entry, y: Entry|
                #[trigger] t1.to_multiset().contains(x) && #[trigger] t1.to_multiset().contains(y)
                    && key_eq(x, y) implies x == y by {
                assert(s1.to_multiset().contains(x));
                assert(s1.to_multiset().contains(y));
            }
        }
        lemma_sorted_output_unique(t1, t2);
        assert forall|i: int| 0 <= i < s1.len() implies s1[i] == s2[i] by {
            if i > 0 {
                assert(s1[i] == t1[i - 1]);
                assert(s2[i] == t2[i - 1]);
                assert(t1[i - 1] == t2[i - 1]);
            }
        }
        assert(s1 =~= s2);
    }
}

} // verus!
