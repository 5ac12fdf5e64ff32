//! The run generator: turns an unordered record stream into a sequence of
//! sealed, sorted runs while holding at most a configured number of
//! records in memory.

use vstd::prelude::*;
use vstd::multiset::Multiset;
use crate::codec::Entry;
use crate::sorting::sort_entries;
use crate::sorting::sorted_by_key;

verus! {

/// The views of a list of runs.
pub open spec fn runs_seqs(runs: Seq<Vec<Entry>>) -> Seq<Seq<Entry>> {
    runs.map(|i: int, r: Vec<Entry>| r@)
}

/// All records carried by a list of runs, as one multiset.
pub open spec fn flat_multiset(rs: Seq<Seq<Entry>>) -> Multiset<Entry>
    decreases rs.len(),
{
    if rs.len() == 0 {
        Multiset::empty()
    } else {
        rs.first().to_multiset().add(flat_multiset(rs.drop_first()))
    }
}

/// Total record count over a list of runs.
pub open spec fn total_len(rs: Seq<Seq<Entry>>) -> nat
    decreases rs.len(),
{
    if rs.len() == 0 {
        0
    } else {
        rs.first().len() + total_len(rs.drop_first())
    }
}

/// Appending one more run extends the carried multiset by that run's
/// records.
pub proof fn lemma_flat_multiset_push(rs: Seq<Seq<Entry>>, r: Seq<Entry>)
    ensures
        flat_multiset(rs.push(r)) == flat_multiset(rs).add(r.to_multiset()),
    decreases rs.len(),
{
    broadcast use vstd::multiset::group_multiset_axioms;

    if rs.len() == 0 {
        assert(rs.push(r).drop_first() =~= Seq::<Seq<Entry>>::empty());
        assert(rs.push(r).first() == r);
        assert(flat_multiset(Seq::<Seq<Entry>>::empty()) == Multiset::<Entry>::empty());
        assert(flat_multiset(rs) == Multiset::<Entry>::empty());
        assert(flat_multiset(rs.push(r)) =~= flat_multiset(rs).add(r.to_multiset()));
    } else {
        assert(rs.push(r).drop_first() =~= rs.drop_first().push(r));
        assert(rs.push(r).first() == rs.first());
        lemma_flat_multiset_push(rs.drop_first(), r);
        assert(flat_multiset(rs.push(r)) =~= flat_multiset(rs).add(r.to_multiset()));
    }
}

/// A list of runs carries as many records as its lengths add up to.
pub proof fn lemma_flat_multiset_len(rs: Seq<Seq<Entry>>)
    ensures
        flat_multiset(rs).len() == total_len(rs),
    decreases rs.len(),
{
    broadcast use vstd::multiset::group_multiset_axioms;
    broadcast use vstd::seq_lib::group_to_multiset_ensures;

    if rs.len() > 0 {
        lemma_flat_multiset_len(rs.drop_first());
        assert(rs.first().to_multiset().len() == rs.first().len());
    }
}

/// Number of runs generation yields for `n` input records under buffer
/// capacity `c`: one per full or partial buffer, and a single empty run
/// when the input is empty.
pub open spec fn run_count(n: nat, c: nat) -> nat
    recommends
        c >= 1,
{
    if n == 0 {
        1
    } else {
        ((n + c - 1) as int / c as int) as nat
    }
}

/// An input that fits the generator's buffer yields exactly one run: the
/// fast path on which the orchestrator promotes the run directly, without
/// invoking the merger.
pub proof fn lemma_single_run_when_fits(n: nat, c: nat)
    requires
        c >= 1,
        n <= c,
    ensures
        run_count(n, c) == 1,
{
    if n > 0 {
        vstd::arithmetic::div_mod::lemma_fundamental_div_mod_converse(
            (n + c - 1) as int,
            c as int,
            1,
            (n - 1) as int,
        );
    }
}

/// The run generator's state: a bounded buffer of records not yet sealed
/// into a run, advanced by explicit calls.
pub struct RunGenerator {
    /// Records accepted but not yet sealed.
    pub buffer: Vec<Entry>,
    /// The configured bound on resident records.
    pub capacity: usize,
    /// How many runs have been sealed so far.
    pub emitted: usize,
}

impl RunGenerator {
    /// Between calls the buffer is strictly below its capacity: a full
    /// buffer is always sealed at once.
    pub open spec fn wf(&self) -> bool {
        self.capacity >= 1 && self.buffer@.len() < self.capacity
    }

    /// A fresh generator with an empty buffer.
    pub fn new(capacity: usize) -> (g: RunGenerator)
        requires
            capacity >= 1,
        ensures
            g.wf(),
            g.buffer@ == Seq::<Entry>::empty(),
            g.capacity == capacity,
            g.emitted == 0,
    {
        RunGenerator { buffer: Vec::new(), capacity, emitted: 0 }
    }

    /// Accepts one record. When the buffer reaches its capacity, it is
    /// sorted, sealed and handed back as a run; the records of a sealed
    /// run are exactly the buffered ones.
    pub fn push(&mut self, e: Entry) -> (r: Option<Vec<Entry>>)
        requires
            old(self).wf(),
            old(self).emitted < usize::MAX,
        ensures
            final(self).wf(),
            final(self).capacity == old(self).capacity,
            old(self).buffer@.len() + 1 == old(self).capacity ==> (match r {
                Some(run) => sorted_by_key(run@) && run@.to_multiset() == old(self).buffer@.push(
                    e,
                ).to_multiset() && run@.len() == old(self).capacity && final(self).buffer@
                    == Seq::<Entry>::empty() && final(self).emitted == old(self).emitted + 1,
                None => false,
            }),
            old(self).buffer@.len() + 1 < old(self).capacity ==> r is None && final(self).buffer@
                == old(self).buffer@.push(e) && final(self).emitted == old(self).emitted,
    {
        self.buffer.push(e);
        if self.buffer.len() == self.capacity {
            let mut full: Vec<Entry> = Vec::new();
            core::mem::swap(&mut full, &mut self.buffer);
            let run = sort_entries(full);
            self.emitted += 1;
            Some(run)
        } else {
            None
        }
    }

    /// Seals whatever the buffer still holds. A non-empty remainder always
    /// becomes a run; an empty remainder becomes a run only when no run
    /// was sealed before, so that generation always yields at least one.
    pub fn finish(self) -> (r: Option<Vec<Entry>>)
        requires
            self.wf(),
        ensures
            (self.buffer@.len() > 0 || self.emitted == 0) <==> r is Some,
            match r {
                Some(run) => sorted_by_key(run@) && run@.to_multiset()
                    == self.buffer@.to_multiset() && run@.len() == self.buffer@.len(),
                None => true,
            },
    {
        if self.buffer.len() > 0 || self.emitted == 0 {
            let run = sort_entries(self.buffer);
            Some(run)
        } else {
            None
        }
    }
}

/// Chunk `k` of the input under capacity `c`: the records the `k`-th
/// buffer fill accepts, in input order.
pub open spec fn chunk_of(es: Seq<Entry>, c: int, k: int) -> Seq<Entry>
    recommends
        c >= 1,
        k >= 0,
{
    es.subrange(
        k * c,
        if (k + 1) * c <= es.len() {
            (k + 1) * c
        } else {
            es.len() as int
        },
    )
}

/// Cuts the input into runs of at most `capacity` records each, sealing a
/// sorted run whenever the buffer fills, and sealing the remainder last.
/// Generation is a pure partition: run `k` holds exactly the records of
/// the `k`-th input chunk, sorted, so the runs together carry exactly the
/// input records, and an input that fits the buffer yields a single run.
pub fn generate_runs(entries: &Vec<Entry>, capacity: usize) -> (runs: Vec<Vec<Entry>>)
    requires
        capacity >= 1,
    ensures
        runs@.len() == run_count(entries@.len(), capacity as nat),
        forall|k: int| 0 <= k < runs@.len() ==> sorted_by_key(#[trigger] runs@[k]@),
        forall|k: int| 0 <= k < runs@.len() ==> #[trigger] runs@[k]@.len() <= capacity,
        forall|k: int|
            0 <= k < runs@.len() ==> #[trigger] runs@[k]@.to_multiset() == chunk_of(
                entries@,
                capacity as int,
                k,
            ).to_multiset(),
        flat_multiset(runs_seqs(runs@)) == entries@.to_multiset(),
{
    let ghost n = entries@.len();
    let mut gen = RunGenerator::new(capacity);
    let mut runs: Vec<Vec<Entry>> = Vec::new();
    let mut i: usize = 0;
    proof {
        broadcast use vstd::multiset::group_multiset_axioms;

        assert(runs_seqs(runs@) =~= Seq::<Seq<Entry>>::empty());
        assert(flat_multiset(Seq::<Seq<Entry>>::empty()) == Multiset::<Entry>::empty());
        assert(gen.buffer@ =~= entries@.subrange(0, 0));
        assert(flat_multiset(runs_seqs(runs@)).add(gen.buffer@.to_multiset())
            =~= entries@.subrange(0, 0).to_multiset());
    }
    while i < entries.len()
        invariant
            gen.wf(),
            gen.capacity == capacity,
            n == entries@.len(),
            i <= n,
            runs@.len() == gen.emitted,
            flat_multiset(runs_seqs(runs@)).add(gen.buffer@.to_multiset()) =~= entries@.subrange(
                0,
                i as int,
            ).to_multiset(),
            forall|k: int| 0 <= k < runs@.len() ==> sorted_by_key(#[trigger] runs@[k]@),
            forall|k: int| 0 <= k < runs@.len() ==> #[trigger] runs@[k]@.len() <= capacity,
            forall|k: int|
                0 <= k < runs@.len() ==> #[trigger] runs@[k]@.to_multiset() == chunk_of(
                    entries@,
                    capacity as int,
                    k,
                ).to_multiset(),
            gen.emitted * capacity + gen.buffer@.len() == i,
            gen.buffer@ == entries@.subrange(i - gen.buffer@.len(), i as int),
        decreases n - i,
    {
        broadcast use vstd::multiset::group_multiset_axioms;
        broadcast use vstd::seq_lib::group_to_multiset_ensures;

        proof {
            assert(gen.emitted <= gen.emitted * capacity) by (nonlinear_arith)
                requires
                    capacity >= 1,
                    gen.emitted >= 0,
            ;
        }
        let e = entries[i];
        let ghost pre = entries@.subrange(0, i as int);
        proof {
            assert(entries@.subrange(0, i + 1) =~= pre.push(e));
        }
        let ghost old_emitted = gen.emitted;
        let ghost old_buffer = gen.buffer@;
        match gen.push(e) {
            Some(run) => {
                proof {
                    lemma_flat_multiset_push(runs_seqs(runs@), run@);
                    assert(runs_seqs(runs@.push(run)) =~= runs_seqs(runs@).push(run@));
                }
                runs.push(run);
                proof {
                    assert((old_emitted + 1) * capacity == old_emitted * capacity + capacity)
                        by (nonlinear_arith);
                    // The sealed run is exactly the chunk the buffer was
                    // filled from.
                    assert(old_buffer.push(e) =~= entries@.subrange(
                        old_emitted * capacity,
                        i + 1,
                    ));
                    assert(chunk_of(entries@, capacity as int, old_emitted as int)
                        =~= entries@.subrange(old_emitted * capacity, i + 1));
                    assert(runs@[old_emitted as int]@.to_multiset() == chunk_of(
                        entries@,
                        capacity as int,
                        old_emitted as int,
                    ).to_multiset());
                }
            },
            None => {},
        }
        i += 1;
        proof {
            assert(gen.buffer@ =~= entries@.subrange(i - gen.buffer@.len(), i as int));
        }
        proof {
            assert(flat_multiset(runs_seqs(runs@)).add(gen.buffer@.to_multiset())
                =~= entries@.subrange(0, i as int).to_multiset());
        }
    }
    proof {
        assert(entries@.subrange(0, n as int) =~= entries@);
    }
    let ghost q = gen.emitted;
    let ghost buf = gen.buffer@;
    let ghost rem = gen.buffer@.len();
    match gen.finish() {
        Some(run) => {
            proof {
                lemma_flat_multiset_push(runs_seqs(runs@), run@);
                assert(runs_seqs(runs@.push(run)) =~= runs_seqs(runs@).push(run@));
            }
            runs.push(run);
            proof {
                broadcast use vstd::multiset::group_multiset_axioms;

                assert(flat_multiset(runs_seqs(runs@)) =~= entries@.to_multiset());
                if n == 0 {
                    assert(q == 0 && rem == 0) by (nonlinear_arith)
                        requires
                            q * capacity + rem == 0,
                            capacity >= 1,
                            q >= 0,
                            rem >= 0,
                    ;
                    assert(runs@.len() == 1);
                } else {
                    assert(rem >= 1);
                    assert((q + 1) * capacity == q * capacity + capacity) by (nonlinear_arith);
                    vstd::arithmetic::div_mod::lemma_fundamental_div_mod_converse(
                        (n + capacity - 1) as int,
                        capacity as int,
                        q + 1,
                        (rem - 1) as int,
                    );
                    assert(runs@.len() == run_count(n, capacity as nat));
                }
                // The final run is exactly the last, partial chunk.
                assert(chunk_of(entries@, capacity as int, q as int) =~= entries@.subrange(
                    q * capacity,
                    n as int,
                ));
                assert(buf =~= entries@.subrange(q * capacity, n as int));
                assert(runs@[q as int]@.to_multiset() == chunk_of(
                    entries@,
                    capacity as int,
                    q as int,
                ).to_multiset());
            }
        },
        None => {
            proof {
                broadcast use vstd::multiset::group_multiset_axioms;
                broadcast use vstd::seq_lib::group_to_multiset_ensures;

                assert(rem == 0 && q >= 1);
                assert(n == q * capacity);
                assert(n >= 1) by (nonlinear_arith)
                    requires
                        q >= 1,
                        capacity >= 1,
                        n == q * capacity,
                ;
                vstd::arithmetic::div_mod::lemma_fundamental_div_mod_converse(
                    (n + capacity - 1) as int,
                    capacity as int,
                    q as int,
                    (capacity - 1) as int,
                );
                assert(runs@.len() == run_count(n, capacity as nat));
                assert(buf =~= Seq::<Entry>::empty());
                assert forall|x: Entry| buf.to_multiset().count(x) == 0 by {
                    if buf.to_multiset().count(x) > 0 {
                        assert(buf.contains(x));
                    }
                }
                assert(flat_multiset(runs_seqs(runs@)) =~= entries@.to_multiset());
            }
        },
    }
    runs
}

} // verus!
