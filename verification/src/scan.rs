//! A second, simpler line scanner over the text format: every line
//! counts, the record kind is read from the line's first tab field, a
//! segment's sequence is its third tab field, and nothing is ever an
//! error — a segment record without a sequence field is simply skipped.

use crate::gfa::sat64;
use crate::stats::count_gc;
use crate::stream::{bump, count_n};
use crate::text::{split_bytes, split_bytes_exec, sub_bytes};
use vstd::prelude::*;

verus! {

/// Counters gathered by the scanner.
#[derive(Debug, Clone, Copy, PartialEq, Eq, Structural)]
pub struct BasicStats {
    /// All lines seen, blank ones included.
    pub total_lines: u64,
    /// Segment records.
    pub node_count: u64,
    /// Link records.
    pub edge_count: u64,
    /// Path records.
    pub path_count: u64,
    /// Records of any other kind.
    pub other_records: u64,
    /// Comment lines.
    pub comment_lines: u64,
    /// Total bases over all segment sequence fields, placeholders
    /// included.
    pub total_bp: u64,
    /// Shortest sequence field; the largest value until a segment is
    /// seen.
    pub min_node_len: u64,
    /// Longest sequence field.
    pub max_node_len: u64,
    /// G/C bases over all sequence fields.
    pub gc_bases: u64,
    /// N bases over all sequence fields.
    pub n_bases: u64,
}

/// All counters zero.
pub open spec fn spec_zero_stats() -> BasicStats {
    BasicStats {
        total_lines: 0,
        node_count: 0,
        edge_count: 0,
        path_count: 0,
        other_records: 0,
        comment_lines: 0,
        total_bp: 0,
        min_node_len: 0,
        max_node_len: 0,
        gc_bases: 0,
        n_bases: 0,
    }
}

impl Default for BasicStats {
    /// All counters zero, the minimum included.
    fn default() -> (r: Self)
        ensures
            r == spec_zero_stats(),
    {
        BasicStats {
            total_lines: 0,
            node_count: 0,
            edge_count: 0,
            path_count: 0,
            other_records: 0,
            comment_lines: 0,
            total_bp: 0,
            min_node_len: 0,
            max_node_len: 0,
            gc_bases: 0,
            n_bases: 0,
        }
    }
}

/// The sequence field of a segment line: its third tab field, when the
/// line has one.
pub open spec fn spec_segment_sequence(line: Seq<u8>) -> Option<Seq<u8>> {
    let fields = split_bytes(line, 9u8);
    if fields.len() >= 3 {
        Some(fields[2])
    } else {
        None
    }
}

/// What one line does to the counters: every line counts; a line
/// beginning with `#` is a comment, otherwise the first tab field — it
/// must be exactly `S`, `L` or `P` — selects the record kind, and a
/// segment line's third tab field, placeholder or not, joins the
/// totals, extremes and base counts when present.
pub open spec fn spec_scan_line(st: BasicStats, line: Seq<u8>) -> BasicStats {
    let st1 = BasicStats { total_lines: bump(st.total_lines), ..st };
    if line.len() == 0 {
        st1
    } else if line[0] == 35u8 {
        BasicStats { comment_lines: bump(st1.comment_lines), ..st1 }
    } else if split_bytes(line, 9u8)[0] == seq![83u8] {
        let st2 = BasicStats { node_count: bump(st1.node_count), ..st1 };
        match spec_segment_sequence(line) {
            None => st2,
            Some(sq) => {
                let l = sat64(sq.len() as int);
                BasicStats {
                    total_bp: sat64(st2.total_bp + l),
                    min_node_len: if l < st2.min_node_len {
                        l
                    } else {
                        st2.min_node_len
                    },
                    max_node_len: if l > st2.max_node_len {
                        l
                    } else {
                        st2.max_node_len
                    },
                    gc_bases: sat64(st2.gc_bases + count_gc(sq)),
                    n_bases: sat64(st2.n_bases + count_n(sq)),
                    ..st2
                }
            },
        }
    } else if split_bytes(line, 9u8)[0] == seq![76u8] {
        BasicStats { edge_count: bump(st1.edge_count), ..st1 }
    } else if split_bytes(line, 9u8)[0] == seq![80u8] {
        BasicStats { path_count: bump(st1.path_count), ..st1 }
    } else {
        BasicStats { other_records: bump(st1.other_records), ..st1 }
    }
}

/// The counters folded over the lines from position `i` on.
pub open spec fn spec_scan_fold(st: BasicStats, lines: Seq<Seq<u8>>, i: int) -> BasicStats
    decreases lines.len() - i,
{
    if i < 0 || i >= lines.len() {
        st
    } else {
        spec_scan_fold(spec_scan_line(st, lines[i]), lines, i + 1)
    }
}

/// The sequence field of a segment line, when the line has one: a copy
/// of its third tab field.
pub fn extract_segment_sequence(line: &[u8]) -> (r: Option<Vec<u8>>)
    ensures
        spec_segment_sequence(line@) matches Some(sq) ==> (r matches Some(v) && v@ == sq),
        spec_segment_sequence(line@) is None ==> r is None,
{
    let fields = split_bytes_exec(line, 9);
    if fields.len() >= 3 {
        proof {
            assert(fields.deep_view()[2] =~= fields@[2int]@);
        }
        Some(crate::text::bytes_to_vec(fields[2].as_slice()))
    } else {
        None
    }
}

impl BasicStats {
    /// Fresh counters: everything zero but the minimum, which starts at
    /// the largest value.
    pub fn new() -> (r: Self)
        ensures
            r == (BasicStats { min_node_len: u64::MAX, ..spec_zero_stats() }),
    {
        BasicStats { min_node_len: u64::MAX, ..BasicStats::default() }
    }

    /// Applies one line to the counters.
    pub fn process_line(&mut self, line: &[u8])
        ensures
            *final(self) == spec_scan_line(*old(self), line@),
    {
        self.total_lines = if self.total_lines < u64::MAX {
            self.total_lines + 1
        } else {
            self.total_lines
        };
        if line.len() == 0 {
            return ;
        }
        if line[0] == 35 {
            self.comment_lines = if self.comment_lines < u64::MAX {
                self.comment_lines + 1
            } else {
                self.comment_lines
            };
            return ;
        }
        let fields = split_bytes_exec(line, 9);
        if field_is(&fields, 83) {
            self.node_count = if self.node_count < u64::MAX {
                self.node_count + 1
            } else {
                self.node_count
            };
            match extract_segment_sequence(line) {
                None => {},
                Some(sq) => {
                    let l = sq.len() as u64;
                    self.total_bp = if self.total_bp > u64::MAX - l {
                        u64::MAX
                    } else {
                        self.total_bp + l
                    };
                    if l < self.min_node_len {
                        self.min_node_len = l;
                    }
                    if l > self.max_node_len {
                        self.max_node_len = l;
                    }
                    let (gc, nn) = base_counts_gc_n(sq.as_slice());
                    proof {
                        crate::stats::lemma_counts_bounded(sq@);
                        crate::stream::lemma_count_n_bounded(sq@);
                    }
                    self.gc_bases = if self.gc_bases > u64::MAX - gc {
                        u64::MAX
                    } else {
                        self.gc_bases + gc
                    };
                    self.n_bases = if self.n_bases > u64::MAX - nn {
                        u64::MAX
                    } else {
                        self.n_bases + nn
                    };
                },
            }
        } else if field_is(&fields, 76) {
            self.edge_count = if self.edge_count < u64::MAX {
                self.edge_count + 1
            } else {
                self.edge_count
            };
        } else if field_is(&fields, 80) {
            self.path_count = if self.path_count < u64::MAX {
                self.path_count + 1
            } else {
                self.path_count
            };
        } else {
            self.other_records = if self.other_records < u64::MAX {
                self.other_records + 1
            } else {
                self.other_records
            };
        }
    }
}

/// Whether the first field of a split holds exactly this one byte.
fn field_is(fields: &Vec<Vec<u8>>, b: u8) -> (r: bool)
    requires
        fields@.len() >= 1,
    ensures
        r == (fields.deep_view()[0] == seq![b]),
{
    let f0 = &fields[0];
    let hit = f0.len() == 1 && f0[0] == b;
    proof {
        assert(fields.deep_view()[0] =~= fields@[0int]@);
        if hit {
            assert(f0@ =~= seq![b]);
        } else {
            if f0@.len() == 1 {
                assert(seq![b][0] == b);
            }
            assert(f0@ != seq![b]);
        }
    }
    hit
}

/// The G/C and N base counts of one sequence.
fn base_counts_gc_n(s: &[u8]) -> (r: (u64, u64))
    ensures
        r.0 == count_gc(s@),
        r.1 == count_n(s@),
{
    let n = s.len();
    let mut gc: u64 = 0;
    let mut nn: u64 = 0;
    let mut i: usize = 0;
    proof {
        assert(s@.subrange(0, 0) =~= Seq::<u8>::empty());
    }
    while i < n
        invariant
            0 <= i <= n,
            n == s@.len(),
            gc == count_gc(s@.subrange(0, i as int)),
            nn == count_n(s@.subrange(0, i as int)),
        decreases n - i,
    {
        proof {
            crate::stats::lemma_counts_bounded(s@.subrange(0, i as int));
            crate::stream::lemma_count_n_bounded(s@.subrange(0, i as int));
            let next = s@.subrange(0, i + 1);
            assert(next.drop_last() =~= s@.subrange(0, i as int));
            assert(next.last() == s@[i as int]);
        }
        let b = s[i];
        if b == 71 || b == 103 || b == 67 || b == 99 {
            gc = gc + 1;
        } else if b == 78 || b == 110 {
            nn = nn + 1;
        }
        i = i + 1;
    }
    proof {
        assert(s@.subrange(0, n as int) =~= s@);
    }
    (gc, nn)
}

/// A line with one trailing carriage return removed, as line-by-line
/// readers hand it out on carriage-return-line-feed input.
pub open spec fn strip_cr(s: Seq<u8>) -> Seq<u8> {
    if s.len() > 0 && s.last() == 13u8 {
        s.drop_last()
    } else {
        s
    }
}

/// One scan over a complete text: the text is split at line feeds, each
/// line loses one trailing carriage return, every line is applied in
/// turn, and the minimum is folded to zero when no segment was seen.
pub fn scan_stats(data: &[u8]) -> (r: BasicStats)
    ensures
        ({
            let st = spec_scan_fold(
                (BasicStats { min_node_len: u64::MAX, ..spec_zero_stats() }),
                split_bytes(data@, 10u8).map_values(|l: Seq<u8>| strip_cr(l)),
                0,
            );
            r == if st.node_count == 0 {
                (BasicStats { min_node_len: 0, ..st })
            } else {
                st
            }
        }),
{
    let lines = split_bytes_exec(data, 10);
    let ghost lv = split_bytes(data@, 10u8).map_values(|l: Seq<u8>| strip_cr(l));
    proof {
        assert(lines.deep_view() == split_bytes(data@, 10u8));
        assert(lv.len() == lines@.len());
    }
    let mut stats = BasicStats::new();
    let n = lines.len();
    let mut i: usize = 0;
    while i < n
        invariant
            0 <= i <= n,
            n == lines@.len(),
            lv == split_bytes(data@, 10u8).map_values(|l: Seq<u8>| strip_cr(l)),
            lv.len() == n,
            lines.deep_view() == split_bytes(data@, 10u8),
            spec_scan_fold(
                (BasicStats { min_node_len: u64::MAX, ..spec_zero_stats() }),
                lv,
                0,
            ) == spec_scan_fold(stats, lv, i as int),
        decreases n - i,
    {
        let raw = &lines[i];
        let rn = raw.len();
        let end = if rn > 0 && raw[rn - 1] == 13 {
            rn - 1
        } else {
            rn
        };
        let stripped = sub_bytes(raw.as_slice(), 0, end);
        proof {
            assert(lines.deep_view()[i as int] =~= lines@[i as int]@);
            let orig = split_bytes(data@, 10u8)[i as int];
            if rn > 0 && raw@[rn - 1] == 13 {
                assert(stripped@ =~= orig.drop_last());
            } else {
                assert(stripped@ =~= orig);
            }
            assert(stripped@ == strip_cr(orig));
            assert(lv[i as int] == strip_cr(orig));
        }
        stats.process_line(stripped.as_slice());
        i = i + 1;
    }
    if stats.node_count == 0 {
        stats.min_node_len = 0;
    }
    stats
}

} // verus!
