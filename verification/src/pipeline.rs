//! The pipeline orchestrator: strict parsing, run generation, and — when
//! more than one run was generated — the bounded-window merge. A single
//! run is promoted directly without invoking the merger.

use vstd::prelude::*;
use crate::codec::Entry;
use crate::codec::Error;
use crate::codec::line_record;
use crate::codec::valid_line;
use crate::generator::flat_multiset;
use crate::generator::generate_runs;
use crate::generator::lemma_flat_multiset_len;
use crate::generator::run_count;
use crate::generator::runs_seqs;
use crate::merge::merge_runs;
use crate::sorting::key_determines_record;
use crate::sorting::lemma_sorted_output_unique;
use crate::sorting::sorted_by_key;

verus! {

/// The views of a list of byte lines.
pub open spec fn line_views(ls: Seq<Vec<u8>>) -> Seq<Seq<u8>> {
    ls.map(|i: int, l: Vec<u8>| l@)
}

/// Every line is well formed.
pub open spec fn all_lines_valid(ls: Seq<Seq<u8>>) -> bool {
    forall|i: int| 0 <= i < ls.len() ==> valid_line(#[trigger] ls[i])
}

/// The records a list of well-formed lines denotes, in input order.
pub open spec fn records_of(ls: Seq<Seq<u8>>) -> Seq<Entry> {
    Seq::new(ls.len(), |i: int| line_record(ls[i]))
}

/// Parses every input line in order. The first malformed line aborts the
/// whole pipeline: success is owed exactly when every line is well formed.
#[verifier::rlimit(100)]
pub fn parse_lines(lines: &Vec<Vec<u8>>) -> (r: Result<Vec<Entry>, Error>)
    ensures
        match r {
            Ok(es) => all_lines_valid(line_views(lines@)) && es@ == records_of(
                line_views(lines@),
            ),
            Err(e) => !all_lines_valid(line_views(lines@)) && e == Error::MalformedRecord,
        },
{
    let ghost ls = line_views(lines@);
    let mut out: Vec<Entry> = Vec::new();
    let mut i: usize = 0;
    while i < lines.len()
        invariant
            ls == line_views(lines@),
            i <= lines@.len(),
            out@.len() == i,
            forall|k: int| 0 <= k < i ==> valid_line(#[trigger] ls[k]),
            forall|k: int| 0 <= k < i ==> #[trigger] out@[k] == line_record(ls[k]),
        decreases lines@.len() - i,
    {
        let line = &lines[i];
        match Entry::parse(line) {
            Ok(e) => {
                proof {
                    assert(ls[i as int] == lines@[i as int]@);
                }
                out.push(e);
            },
            Err(err) => {
                proof {
                    assert(ls[i as int] == lines@[i as int]@);
                    assert(!valid_line(ls[i as int]));
                }
                return Err(err);
            },
        }
        i += 1;
    }
    proof {
        assert(out@ =~= records_of(ls));
    }
    Ok(out)
}

/// Runs the whole engine: strict parsing, run generation under
/// `gen_capacity`, and a single bounded-window merge pass under
/// `merge_capacity` when generation yielded more than one run; a lone run
/// is promoted directly, skipping the merger. Succeeds exactly when every
/// line is well formed, and then returns every input record, in
/// non-decreasing key order: nothing is dropped, duplicated or invented.
pub fn run_pipeline(lines: &Vec<Vec<u8>>, gen_capacity: usize, merge_capacity: usize) -> (r:
    Result<Vec<Entry>, Error>)
    requires
        gen_capacity >= 1,
        merge_capacity >= 1,
    ensures
        match r {
            Ok(out) => all_lines_valid(line_views(lines@)) && sorted_by_key(out@)
                && out@.to_multiset() == records_of(line_views(lines@)).to_multiset()
                && out@.len() == lines@.len(),
            Err(e) => !all_lines_valid(line_views(lines@)) && e == Error::MalformedRecord,
        },
{
    broadcast use vstd::multiset::group_multiset_axioms;
    broadcast use vstd::seq_lib::group_to_multiset_ensures;

    let entries = match parse_lines(lines) {
        Ok(es) => es,
        Err(e) => {
            return Err(e);
        },
    };
    let mut runs = generate_runs(&entries, gen_capacity);
    let ghost rs = runs_seqs(runs@);
    proof {
        assert(entries@.to_multiset().len() == entries@.len());
    }
    if runs.len() > 1 {
        proof {
            assert forall|k: int| 0 <= k < rs.len() implies sorted_by_key(#[trigger] rs[k]) by {
                assert(rs[k] == runs@[k]@);
            }
            lemma_flat_multiset_len(rs);
        }
        let out = merge_runs(&runs, merge_capacity);
        Ok(out)
    } else {
        let r = runs.pop();
        match r {
            Some(out) => {
                proof {
                    assert(runs@.len() == 0);
                    let single = seq![out@];
                    assert(rs =~= single);
                    assert(single.drop_first() =~= Seq::<Seq<Entry>>::empty());
                    assert(flat_multiset(single) == out@.to_multiset().add(
                        flat_multiset(Seq::<Seq<Entry>>::empty()),
                    ));
                    assert(out@.to_multiset() =~= flat_multiset(rs));
                    assert(out@.to_multiset().len() == out@.len());
                }
                Ok(out)
            },
            None => {
                // Generation always yields at least one run.
                proof {
                    assert(run_count(entries@.len(), gen_capacity as nat) >= 1);
                    assert(false);
                }
                Err(Error::MalformedRecord)
            },
        }
    }
}

/// Two successful sorts of the same lines yield the same output, whatever
/// generator capacity and merge window capacity each used: the capacities
/// only decide how the input is cut into runs, never the records carried
/// or their final order. Holds whenever no key of the input occurs with
/// two different counts; the hypotheses are exactly what
/// [`run_pipeline`] ensures of each successful output.
pub proof fn lemma_pipeline_output_unique(lines: Seq<Seq<u8>>, out1: Seq<Entry>, out2: Seq<Entry>)
    requires
        sorted_by_key(out1),
        out1.to_multiset() == records_of(lines).to_multiset(),
        sorted_by_key(out2),
        out2.to_multiset() == records_of(lines).to_multiset(),
        key_determines_record(records_of(lines).to_multiset()),
    ensures
        out1 == out2,
{
    lemma_sorted_output_unique(out1, out2);
}

} // verus!
