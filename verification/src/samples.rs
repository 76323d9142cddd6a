//! Per-sample path counts from a list of path names following the
//! `SAMPLE#HAPLOTYPE#CONTIG` convention: the sample is the text before
//! the first `#`, or the whole name when there is none.  The names
//! themselves come from an external toolkit; this module only counts.

use crate::gfa::sat64;
use crate::stats::{bump_exec, cnts_view, spec_bump};
use crate::text::{find_byte, find_byte_exec, lemma_find_byte, split_bytes, split_bytes_exec,
    sub_bytes, trim_bytes, trimmed};
use vstd::prelude::*;

verus! {

/// The sample a path name belongs to: the text before the first `#`, or
/// the whole name.
pub open spec fn sample_of(name: Seq<u8>) -> Seq<u8> {
    let i = find_byte(name, 35u8);
    if 0 <= i < name.len() {
        name.subrange(0, i)
    } else {
        name
    }
}

/// How many of the lines from position `i` on are non-blank.
pub open spec fn spec_total_paths(lines: Seq<Seq<u8>>, i: int) -> int
    decreases lines.len() - i,
{
    if i < 0 || i >= lines.len() {
        0
    } else {
        (if trimmed(lines[i]).len() > 0 {
            1int
        } else {
            0int
        }) + spec_total_paths(lines, i + 1)
    }
}

/// The per-sample counters folded over the lines from position `i` on:
/// each non-blank line bumps the counter of its sample.
pub open spec fn spec_sample_counts(
    lines: Seq<Seq<u8>>,
    i: int,
    acc: Seq<(Seq<u8>, u64)>,
) -> Seq<(Seq<u8>, u64)>
    decreases lines.len() - i,
{
    if i < 0 || i >= lines.len() {
        acc
    } else {
        let t = trimmed(lines[i]);
        let a2 = if t.len() > 0 {
            spec_bump(acc, sample_of(t))
        } else {
            acc
        };
        spec_sample_counts(lines, i + 1, a2)
    }
}

pub proof fn lemma_total_paths_nonneg(lines: Seq<Seq<u8>>, i: int)
    ensures
        spec_total_paths(lines, i) >= 0,
    decreases lines.len() - i,
{
    if 0 <= i < lines.len() {
        lemma_total_paths_nonneg(lines, i + 1);
    }
}

/// Counts the paths named in a text, one name per line: the total of
/// non-blank lines, and for each sample — the text before a name's first
/// `#` — how many names belong to it, in first-seen order.
pub fn sample_path_counts(data: &[u8]) -> (r: (u64, Vec<(Vec<u8>, u64)>))
    ensures
        r.0 == sat64(spec_total_paths(split_bytes(data@, 10u8), 0)),
        cnts_view(r.1@) == spec_sample_counts(split_bytes(data@, 10u8), 0, Seq::empty()),
{
    let lines = split_bytes_exec(data, 10);
    let ghost lv = lines.deep_view();
    let mut total: u64 = 0;
    let mut counts: Vec<(Vec<u8>, u64)> = Vec::new();
    proof {
        assert(cnts_view(counts@) =~= Seq::<(Seq<u8>, u64)>::empty());
    }
    let n = lines.len();
    let mut i: usize = 0;
    while i < n
        invariant
            0 <= i <= n,
            n == lines@.len(),
            lv == lines.deep_view(),
            lv == split_bytes(data@, 10u8),
            sat64(spec_total_paths(lv, 0)) == sat64(total + spec_total_paths(lv, i as int)),
            total <= i,
            spec_sample_counts(lv, 0, Seq::empty()) == spec_sample_counts(
                lv,
                i as int,
                cnts_view(counts@),
            ),
        decreases n - i,
    {
        proof {
            assert(lv[i as int] =~= lines@[i as int]@);
            lemma_total_paths_nonneg(lv, i + 1);
        }
        let t = trim_bytes(lines[i].as_slice());
        if t.len() > 0 {
            total = if total < u64::MAX {
                total + 1
            } else {
                total
            };
            let sample = match find_byte_exec(t.as_slice(), 35) {
                Some(j) => {
                    proof {
                        lemma_find_byte(t@, 35);
                    }
                    sub_bytes(t.as_slice(), 0, j)
                },
                None => t,
            };
            proof {
                assert(sample@ == sample_of(trimmed(lv[i as int])));
            }
            bump_exec(&mut counts, sample.as_slice());
        }
        i = i + 1;
    }
    proof {
        assert(spec_total_paths(lv, n as int) == 0);
    }
    (total, counts)
}

} // verus!
