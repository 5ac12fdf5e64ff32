//! The k-way merger: merges any number of sealed sorted runs into one
//! sorted stream while holding at most a configured number of records in
//! memory, refilling per-source windows as they drain.

use vstd::prelude::*;
use vstd::multiset::Multiset;
use crate::codec::Entry;
use crate::codec::key_le;
use crate::generator::flat_multiset;
use crate::generator::lemma_flat_multiset_len;
use crate::generator::runs_seqs;
use crate::generator::total_len;
use crate::sorting::sorted_by_key;

verus! {

/// Per-source emission boundaries: entry `k` is how many records of run
/// `k` have already been emitted (the rest sit in the window or are still
/// unread).
pub open spec fn los(cursor: Seq<usize>, bufs: Seq<Vec<Entry>>) -> Seq<int> {
    Seq::new(cursor.len(), |i: int| cursor[i] - bufs[i]@.len())
}

/// All records at or past the emission boundaries: the window contents
/// together with everything unread.
pub open spec fn suffixes_ms(rs: Seq<Seq<Entry>>, lo: Seq<int>) -> Multiset<Entry>
    recommends
        lo.len() == rs.len(),
    decreases rs.len(),
{
    if rs.len() == 0 {
        Multiset::empty()
    } else {
        rs.first().subrange(lo.first(), rs.first().len() as int).to_multiset().add(
            suffixes_ms(rs.drop_first(), lo.drop_first()),
        )
    }
}

/// An empty buffer carries the empty multiset.
proof fn lemma_empty_to_multiset(s: Seq<Entry>)
    requires
        s.len() == 0,
    ensures
        s.to_multiset() == Multiset::<Entry>::empty(),
{
    broadcast use vstd::multiset::group_multiset_axioms;
    broadcast use vstd::seq_lib::group_to_multiset_ensures;

    assert forall|x: Entry| s.to_multiset().count(x) == 0 by {
        if s.to_multiset().count(x) > 0 {
            assert(s.contains(x));
        }
    }
    assert(s.to_multiset() =~= Multiset::<Entry>::empty());
}

/// Before anything is emitted, the suffixes are the whole input.
proof fn lemma_suffixes_zero(rs: Seq<Seq<Entry>>, lo: Seq<int>)
    requires
        lo.len() == rs.len(),
        forall|i: int| 0 <= i < lo.len() ==> lo[i] == 0,
    ensures
        suffixes_ms(rs, lo) == flat_multiset(rs),
    decreases rs.len(),
{
    if rs.len() > 0 {
        assert(rs.first().subrange(0, rs.first().len() as int) =~= rs.first());
        lemma_suffixes_zero(rs.drop_first(), lo.drop_first());
    }
}

/// Once every boundary has reached the end of its run, nothing remains.
proof fn lemma_suffixes_exhausted(rs: Seq<Seq<Entry>>, lo: Seq<int>)
    requires
        lo.len() == rs.len(),
        forall|i: int| 0 <= i < rs.len() ==> lo[i] == #[trigger] rs[i].len(),
    ensures
        suffixes_ms(rs, lo) == Multiset::<Entry>::empty(),
    decreases rs.len(),
{
    broadcast use vstd::multiset::group_multiset_axioms;

    if rs.len() > 0 {
        let s0 = rs.first().subrange(lo.first(), rs.first().len() as int);
        assert(s0.len() == 0);
        lemma_empty_to_multiset(s0);
        lemma_suffixes_exhausted(rs.drop_first(), lo.drop_first());
        assert(suffixes_ms(rs, lo) =~= Multiset::<Entry>::empty());
    }
}

/// Advancing the boundary of source `i` by one removes exactly the record
/// at that boundary from the suffixes.
proof fn lemma_suffixes_advance(rs: Seq<Seq<Entry>>, lo: Seq<int>, i: int)
    requires
        lo.len() == rs.len(),
        0 <= i < rs.len(),
        forall|k: int| 0 <= k < rs.len() ==> 0 <= #[trigger] lo[k] && lo[k] <= rs[k].len(),
        lo[i] < rs[i].len(),
    ensures
        suffixes_ms(rs, lo) == suffixes_ms(rs, lo.update(i, lo[i] + 1)).insert(rs[i][lo[i]]),
    decreases rs.len(),
{
    broadcast use vstd::multiset::group_multiset_axioms;
    broadcast use vstd::seq_lib::group_to_multiset_ensures;

    let lo2 = lo.update(i, lo[i] + 1);
    if i == 0 {
        let s0 = rs.first();
        let x = s0[lo[0]];
        let head = s0.subrange(lo[0], s0.len() as int);
        let tail = s0.subrange(lo[0] + 1, s0.len() as int);
        assert(head =~= seq![x] + tail);
        assert(head.remove(0) =~= tail);
        assert(head.remove(0).to_multiset() == head.to_multiset().remove(head[0]));
        assert(head.contains(x)) by {
            assert(head[0] == x);
        }
        assert(head.to_multiset().count(x) > 0);
        assert(head.to_multiset() =~= tail.to_multiset().insert(x));
        assert(lo2.drop_first() =~= lo.drop_first());
        assert(lo2.first() == lo[0] + 1);
        assert(s0.subrange(lo2.first(), s0.len() as int) =~= tail);
        assert(suffixes_ms(rs, lo) =~= suffixes_ms(rs, lo2).insert(rs[0][lo[0]]));
    } else {
        assert(lo2.first() == lo.first());
        assert(lo2.drop_first() =~= lo.drop_first().update(i - 1, lo.drop_first()[i - 1] + 1));
        assert(rs.drop_first()[i - 1] == rs[i]);
        assert(lo.drop_first()[i - 1] == lo[i]);
        assert forall|k: int| 0 <= k < rs.drop_first().len() implies 0 <= #[trigger] lo.drop_first()[k]
            && lo.drop_first()[k] <= rs.drop_first()[k].len() by {
            assert(lo.drop_first()[k] == lo[k + 1]);
            assert(rs.drop_first()[k] == rs[k + 1]);
            assert(0 <= lo[k + 1] <= rs[k + 1].len());
        }
        lemma_suffixes_advance(rs.drop_first(), lo.drop_first(), i - 1);
        assert(suffixes_ms(rs, lo) =~= suffixes_ms(rs, lo2).insert(rs[i][lo[i]]));
    }
}

/// Every run is sorted: the merger's precondition on its sources.
pub open spec fn all_runs_sorted(rs: Seq<Seq<Entry>>) -> bool {
    forall|k: int| 0 <= k < rs.len() ==> sorted_by_key(#[trigger] rs[k])
}

/// Each per-source window is a contiguous slice of its run, reaching back
/// from the read cursor, and holds at most `w` records.
pub open spec fn windows_ok(
    rs: Seq<Seq<Entry>>,
    bufs: Seq<Vec<Entry>>,
    cursor: Seq<usize>,
    w: int,
) -> bool {
    &&& bufs.len() == rs.len()
    &&& cursor.len() == rs.len()
    &&& forall|k: int| 0 <= k < rs.len() ==> #[trigger] cursor[k] <= rs[k].len()
    &&& forall|k: int| 0 <= k < rs.len() ==> #[trigger] bufs[k]@.len() <= cursor[k]
    &&& forall|k: int|
        0 <= k < rs.len() ==> #[trigger] bufs[k]@ == rs[k].subrange(
            cursor[k] - bufs[k]@.len(),
            cursor[k] as int,
        )
    &&& forall|k: int| 0 <= k < rs.len() ==> #[trigger] bufs[k]@.len() <= w
}

/// Everything already emitted keys no higher than anything still to come.
pub open spec fn emitted_le_remaining(out: Seq<Entry>, rs: Seq<Seq<Entry>>, lo: Seq<int>) -> bool {
    forall|a: int, k: int, j: int|
        0 <= a < out.len() && 0 <= k < rs.len() && lo[k] <= j < rs[k].len() ==> key_le(
            #[trigger] out[a],
            #[trigger] rs[k][j],
        )
}

/// The merger's steady state: windows are slices of their runs, the output
/// is sorted and keys no higher than anything remaining, and output plus
/// remainder account for exactly the input records.
pub open spec fn merge_inv(
    rs: Seq<Seq<Entry>>,
    bufs: Seq<Vec<Entry>>,
    cursor: Seq<usize>,
    out: Seq<Entry>,
    w: int,
) -> bool {
    &&& windows_ok(rs, bufs, cursor, w)
    &&& sorted_by_key(out)
    &&& emitted_le_remaining(out, rs, los(cursor, bufs))
    &&& out.to_multiset().add(suffixes_ms(rs, los(cursor, bufs))) == flat_multiset(rs)
    &&& out.len() + suffixes_ms(rs, los(cursor, bufs)).len() == total_len(rs)
}

/// Picks the source whose window front carries the smallest key, the
/// lowest source index winning ties; `None` when every window is empty.
fn min_front_source(bufs: &Vec<Vec<Entry>>) -> (r: Option<usize>)
    ensures
        match r {
            Some(s) => s < bufs@.len() && bufs@[s as int]@.len() > 0 && forall|k: int|
                0 <= k < bufs@.len() && #[trigger] bufs@[k]@.len() > 0 ==> key_le(
                    bufs@[s as int]@[0],
                    bufs@[k]@[0],
                ),
            None => forall|k: int| 0 <= k < bufs@.len() ==> #[trigger] bufs@[k]@.len() == 0,
        },
{
    let n = bufs.len();
    let mut best: usize = 0;
    let mut found = false;
    let mut k: usize = 0;
    while k < n
        invariant
            n == bufs@.len(),
            k <= n,
            !found ==> forall|j: int| 0 <= j < k ==> #[trigger] bufs@[j]@.len() == 0,
            found ==> best < k && bufs@[best as int]@.len() > 0,
            found ==> forall|j: int|
                0 <= j < k && #[trigger] bufs@[j]@.len() > 0 ==> key_le(
                    bufs@[best as int]@[0],
                    bufs@[j]@[0],
                ),
        decreases n - k,
    {
        if bufs[k].len() > 0 {
            if !found {
                found = true;
                best = k;
            } else {
                let bf = bufs[best][0];
                let kf = bufs[k][0];
                if !bf.key_le(&kf) {
                    best = k;
                }
            }
        }
        k += 1;
    }
    if found {
        Some(best)
    } else {
        None
    }
}

/// Merges sealed sorted runs into one sorted stream. The window holds at
/// most `max(capacity / N, 1)` records from each of the `N` runs; whenever
/// a source's share of the window drains, every source below its share is
/// refilled in one pass. The output is sorted and carries exactly the
/// records of the runs: merging is a pure reordering. Ties between equal
/// keys from different runs go to the lower source index.
pub fn merge_runs(runs: &Vec<Vec<Entry>>, capacity: usize) -> (out: Vec<Entry>)
    requires
        runs@.len() >= 1,
        capacity >= 1,
        all_runs_sorted(runs_seqs(runs@)),
    ensures
        sorted_by_key(out@),
        out@.to_multiset() == flat_multiset(runs_seqs(runs@)),
        out@.len() == total_len(runs_seqs(runs@)),
{
    broadcast use vstd::multiset::group_multiset_axioms;
    broadcast use vstd::seq_lib::group_to_multiset_ensures;
    broadcast use vstd::multiset::lemma_insert_len;

    let ghost rs = runs_seqs(runs@);
    let n = runs.len();
    let q = capacity / n;
    let w: usize = if q >= 1 {
        q
    } else {
        1
    };
    let mut bufs: Vec<Vec<Entry>> = Vec::new();
    let mut cursor: Vec<usize> = Vec::new();
    let mut i: usize = 0;
    while i < n
        invariant
            n == runs@.len(),
            i <= n,
            bufs@.len() == i,
            cursor@.len() == i,
            w >= 1,
            forall|k: int|
                0 <= k < i ==> #[trigger] cursor@[k] <= runs@[k]@.len() && cursor@[k] <= w && (
                cursor@[k] == w || cursor@[k] == runs@[k]@.len()),
            forall|k: int|
                0 <= k < i ==> #[trigger] bufs@[k]@ == runs@[k]@.subrange(0, cursor@[k] as int),
            forall|k: int| 0 <= k < i ==> #[trigger] bufs@[k]@.len() == cursor@[k],
        decreases n - i,
    {
        let mut buf: Vec<Entry> = Vec::new();
        let mut c: usize = 0;
        let rl = runs[i].len();
        while c < rl && buf.len() < w
            invariant
                n == runs@.len(),
                i < n,
                rl == runs@[i as int]@.len(),
                c <= rl,
                c <= w,
                buf@.len() == c,
                buf@ == runs@[i as int]@.subrange(0, c as int),
            decreases rl - c,
        {
            let e = runs[i][c];
            buf.push(e);
            c += 1;
            proof {
                assert(buf@ =~= runs@[i as int]@.subrange(0, c as int));
            }
        }
        bufs.push(buf);
        cursor.push(c);
        i += 1;
    }
    let mut out: Vec<Entry> = Vec::new();
    proof {
        assert(rs.len() == n);
        assert forall|k: int| 0 <= k < n implies runs_seqs(runs@)[k] == runs@[k]@ by {}
        assert forall|k: int| 0 <= k < n implies los(cursor@, bufs@)[k] == 0 by {
            assert(bufs@[k]@.len() == cursor@[k]);
        }
        assert forall|k: int|
            0 <= k < rs.len() implies #[trigger] bufs@[k]@ == rs[k].subrange(
            cursor@[k] - bufs@[k]@.len(),
            cursor@[k] as int,
        ) by {
            assert(bufs@[k]@ == runs@[k]@.subrange(0, cursor@[k] as int));
        }
        lemma_suffixes_zero(rs, los(cursor@, bufs@));
        lemma_flat_multiset_len(rs);
        assert(out@.to_multiset() =~= Multiset::<Entry>::empty());
        assert(out@.to_multiset().add(suffixes_ms(rs, los(cursor@, bufs@))) =~= flat_multiset(rs));
        assert(merge_inv(rs, bufs@, cursor@, out@, w as int));
    }
    loop
        invariant_except_break
            n == runs@.len(),
            n >= 1,
            w >= 1,
            rs == runs_seqs(runs@),
            all_runs_sorted(rs),
            merge_inv(rs, bufs@, cursor@, out@, w as int),
            forall|k: int|
                0 <= k < n ==> (#[trigger] bufs@[k]@.len() == 0 ==> cursor@[k] == runs@[k]@.len()),
        ensures
            merge_inv(rs, bufs@, cursor@, out@, w as int),
            forall|k: int| 0 <= k < bufs@.len() ==> #[trigger] bufs@[k]@.len() == 0,
            forall|k: int|
                0 <= k < n ==> (#[trigger] bufs@[k]@.len() == 0 ==> cursor@[k] == runs@[k]@.len()),
            bufs@.len() == n,
            rs == runs_seqs(runs@),
        decreases total_len(rs) - out@.len(),
    {
        broadcast use vstd::multiset::group_multiset_axioms;
        broadcast use vstd::seq_lib::group_to_multiset_ensures;
        broadcast use vstd::multiset::lemma_insert_len;

        let s = match min_front_source(&bufs) {
            Some(s) => s,
            None => { break },
        };
        let ghost lo0 = los(cursor@, bufs@);
        let ghost bufs0 = bufs@;
        let ghost out0 = out@;
        let ghost s_lo = cursor@[s as int] - bufs@[s as int]@.len();
        let e = bufs[s].remove(0);
        out.push(e);
        proof {
            assert(bufs0[s as int]@ == rs[s as int].subrange(s_lo, cursor@[s as int] as int));
            assert(e == rs[s as int][s_lo]);
            assert(bufs@[s as int]@ =~= rs[s as int].subrange(s_lo + 1, cursor@[s as int] as int));
            assert(los(cursor@, bufs@) =~= lo0.update(s as int, s_lo + 1));
            assert forall|k: int| 0 <= k < rs.len() implies 0 <= #[trigger] lo0[k] && lo0[k]
                <= rs[k].len() by {
                assert(bufs0[k]@.len() <= cursor@[k]);
                assert(cursor@[k] <= rs[k].len());
            }
            lemma_suffixes_advance(rs, lo0, s as int);
            // The emitted record keys no higher than anything remaining,
            // so the output stays sorted.
            assert forall|a: int| 0 <= a < out0.len() implies key_le(out0[a], e) by {
                assert(key_le(out0[a], rs[s as int][s_lo]));
            }
            assert(sorted_by_key(out@)) by {
                assert(forall|a: int| 0 <= a < out0.len() ==> out@[a] == out0[a]);
                assert(out@[out0.len() as int] == e);
            }
            // Conservation: the record moved from the suffixes to the output.
            assert(out@.to_multiset() =~= out0.to_multiset().insert(e));
            let lo1 = los(cursor@, bufs@);
            assert(suffixes_ms(rs, lo0) == suffixes_ms(rs, lo1).insert(e));
            assert(out@.to_multiset().add(suffixes_ms(rs, lo1)) =~= flat_multiset(rs));
            assert(out@.len() + suffixes_ms(rs, lo1).len() == total_len(rs));
            // The new record keys no higher than anything still remaining.
            assert forall|a: int, k: int, j: int|
                0 <= a < out@.len() && 0 <= k < rs.len() && lo1[k] <= j < rs[k].len() implies key_le(
                #[trigger] out@[a],
                #[trigger] rs[k][j],
            ) by {
                if a < out0.len() {
                    assert(lo0[k] <= j);
                    assert(key_le(out0[a], rs[k][j]));
                } else {
                    if k == s as int {
                        assert(sorted_by_key(rs[k]));
                        assert(key_le(rs[k][s_lo], rs[k][j]));
                    } else if bufs0[k]@.len() > 0 {
                        assert(key_le(bufs0[s as int]@[0], bufs0[k]@[0]));
                        assert(bufs0[k]@[0] == rs[k][cursor@[k] - bufs0[k]@.len()]);
                        assert(sorted_by_key(rs[k]));
                        assert(key_le(rs[k][lo0[k]], rs[k][j]));
                    } else {
                        assert(cursor@[k] == rs[k].len());
                        assert(lo1[k] == rs[k].len());
                    }
                }
            }
            assert(windows_ok(rs, bufs@, cursor@, w as int));
            assert(merge_inv(rs, bufs@, cursor@, out@, w as int));
        }
        if bufs[s].is_empty() {
            // Refill pass: top up every source below its share until the
            // window share is full or the run is exhausted.
            let mut k: usize = 0;
            while k < n
                invariant
                    n == runs@.len(),
                    n >= 1,
                    w >= 1,
                    rs == runs_seqs(runs@),
                    all_runs_sorted(rs),
                    merge_inv(rs, bufs@, cursor@, out@, w as int),
                    k <= n,
                    forall|j: int|
                        0 <= j < n && #[trigger] bufs@[j]@.len() == 0 && (j < k || j != s as int)
                            ==> cursor@[j] == runs@[j]@.len(),
                decreases n - k,
            {
                while bufs[k].len() < w && cursor[k] < runs[k].len()
                    invariant
                        n == runs@.len(),
                        k < n,
                        w >= 1,
                        rs == runs_seqs(runs@),
                        all_runs_sorted(rs),
                        merge_inv(rs, bufs@, cursor@, out@, w as int),
                        forall|j: int|
                            0 <= j < n && #[trigger] bufs@[j]@.len() == 0 && (j < k || j != s
                                as int) ==> cursor@[j] == runs@[j]@.len(),
                    decreases runs@[k as int]@.len() - cursor@[k as int],
                {
                    broadcast use vstd::multiset::group_multiset_axioms;
                    broadcast use vstd::seq_lib::group_to_multiset_ensures;

                    let ghost lo0 = los(cursor@, bufs@);
                    let ghost bufs0 = bufs@;
                    let ghost cursor0 = cursor@;
                    let c = cursor[k];
                    let e2 = runs[k][c];
                    bufs[k].push(e2);
                    cursor[k] = c + 1;
                    proof {
                        assert(bufs0[k as int]@ == rs[k as int].subrange(
                            c - bufs0[k as int]@.len(),
                            c as int,
                        ));
                        assert(bufs@[k as int]@ =~= rs[k as int].subrange(
                            c + 1 - bufs@[k as int]@.len(),
                            c + 1,
                        ));
                        assert(los(cursor@, bufs@) =~= lo0);
                        assert(windows_ok(rs, bufs@, cursor@, w as int));
                        assert(merge_inv(rs, bufs@, cursor@, out@, w as int));
                    }
                }
                k += 1;
            }
        }
    }
    proof {
        assert forall|k: int| 0 <= k < rs.len() implies los(cursor@, bufs@)[k] == #[trigger] rs[k].len() by {
            assert(bufs@[k]@.len() == 0);
            assert(cursor@[k] == runs@[k]@.len());
        }
        lemma_suffixes_exhausted(rs, los(cursor@, bufs@));
        assert(out@.to_multiset().add(Multiset::<Entry>::empty()) =~= out@.to_multiset());
    }
    out
}

} // verus!
