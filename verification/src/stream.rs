//! Streaming statistics over the text format, line by line, without
//! materializing a graph: record counts, base totals and composition, and
//! a topology variant with N50/L50, a total-degree histogram and a
//! branching-node count.  The N50 and degree definitions agree with the
//! graph-based statistics.

use crate::gfa::sat64;
use crate::stats::{count_gc, dist_of, distribution};
use crate::text::{
    bytes_to_vec, find_index, lemma_find_index_at, lemma_find_index_none, split_bytes,
    split_bytes_exec, trim_bytes, trimmed,
};
use vstd::pervasive::VecAdditionalExecFns;
use vstd::prelude::*;

verus! {

/// The error type of the streaming statistics.
#[derive(Debug, Clone)]
pub enum GfaError {
    /// An input/output failure, described in text.
    Io(String),
    /// A segment record too short to carry a sequence; holds the line.
    MalformedLine(Vec<u8>),
}

/// Counters gathered in one streaming pass.
#[derive(Debug, Clone, Copy, PartialEq, Eq, Structural)]
pub struct BasicStats {
    /// Non-blank lines seen.
    pub total_lines: u64,
    /// Segment records.
    pub node_count: u64,
    /// Link records.
    pub edge_count: u64,
    /// Path records.
    pub path_count: u64,
    /// Records of any other kind.
    pub other_records: u64,
    /// Comment lines.
    pub comment_lines: u64,
    /// Total bases over all segment sequences.
    pub total_bp: u64,
    /// Shortest segment sequence; the largest value until a segment is
    /// seen, folded to zero by [`BasicStats::normalized`].
    pub min_node_len: u64,
    /// Longest segment sequence.
    pub max_node_len: u64,
    /// G/C bases over all segment sequences.
    pub gc_bases: u64,
    /// N bases over all segment sequences.
    pub n_bases: u64,
}

/// The starting counters: everything zero but the minimum, which starts
/// at the largest value.
pub open spec fn spec_init_basic() -> BasicStats {
    BasicStats {
        total_lines: 0,
        node_count: 0,
        edge_count: 0,
        path_count: 0,
        other_records: 0,
        comment_lines: 0,
        total_bp: 0,
        min_node_len: u64::MAX,
        max_node_len: 0,
        gc_bases: 0,
        n_bases: 0,
    }
}

impl Default for BasicStats {
    /// The starting counters.
    fn default() -> (r: Self)
        ensures
            r == spec_init_basic(),
    {
        BasicStats {
            total_lines: 0,
            node_count: 0,
            edge_count: 0,
            path_count: 0,
            other_records: 0,
            comment_lines: 0,
            total_bp: 0,
            min_node_len: u64::MAX,
            max_node_len: 0,
            gc_bases: 0,
            n_bases: 0,
        }
    }
}

/// A 64-bit counter incremented by one, saturating at the largest value
/// (which no stream a machine can read would reach).
pub open spec fn bump(c: u64) -> u64 {
    sat64(c + 1)
}

/// Whether a byte is an N base, either case.
pub open spec fn is_n(b: u8) -> bool {
    b == 78 || b == 110
}

/// The number of N bases in a sequence.
pub open spec fn count_n(s: Seq<u8>) -> int
    decreases s.len(),
{
    if s.len() == 0 {
        0
    } else {
        count_n(s.drop_last()) + if is_n(s.last()) {
            1int
        } else {
            0int
        }
    }
}

pub proof fn lemma_count_n_bounded(s: Seq<u8>)
    ensures
        0 <= count_n(s) <= s.len(),
    decreases s.len(),
{
    if s.len() > 0 {
        lemma_count_n_bounded(s.drop_last());
    }
}

/// What a segment record does to the counters: the third tab field is the
/// sequence — its absence is the one malformed-line error — and unless it
/// is the placeholder `*`, its length joins the totals and extremes and
/// its G/C and N bases are counted.
pub open spec fn spec_handle_segment(st: BasicStats, t: Seq<u8>, line: Seq<u8>) -> Result<
    BasicStats,
    Seq<u8>,
> {
    let fields = split_bytes(t, 9u8);
    if fields.len() < 3 {
        Err(line)
    } else {
        let sq = fields[2];
        if sq == seq![42u8] {
            Ok(st)
        } else {
            let l = sat64(sq.len() as int);
            Ok(
                BasicStats {
                    total_bp: sat64(st.total_bp + l),
                    min_node_len: if l < st.min_node_len {
                        l
                    } else {
                        st.min_node_len
                    },
                    max_node_len: if l > st.max_node_len {
                        l
                    } else {
                        st.max_node_len
                    },
                    gc_bases: sat64(st.gc_bases + count_gc(sq)),
                    n_bases: sat64(st.n_bases + count_n(sq)),
                    ..st
                },
            )
        }
    }
}

/// What one line does to the counters: blank lines are ignored entirely;
/// every other line counts, lines beginning with `#` in the comment bin,
/// then the first tab field of the trimmed line selects the record kind
/// — it must be exactly `S`, `L` or `P`, anything else being another
/// record.
pub open spec fn spec_process_line(st: BasicStats, line: Seq<u8>) -> Result<BasicStats, Seq<u8>> {
    let t = trimmed(line);
    if t.len() == 0 {
        Ok(st)
    } else {
        let st1 = BasicStats { total_lines: bump(st.total_lines), ..st };
        if t[0] == 35u8 {
            Ok(BasicStats { comment_lines: bump(st1.comment_lines), ..st1 })
        } else {
            let f0 = split_bytes(t, 9u8)[0];
            if f0 == seq![83u8] {
                spec_handle_segment(
                    BasicStats { node_count: bump(st1.node_count), ..st1 },
                    t,
                    line,
                )
            } else if f0 == seq![76u8] {
                Ok(BasicStats { edge_count: bump(st1.edge_count), ..st1 })
            } else if f0 == seq![80u8] {
                Ok(BasicStats { path_count: bump(st1.path_count), ..st1 })
            } else {
                Ok(BasicStats { other_records: bump(st1.other_records), ..st1 })
            }
        }
    }
}

/// The counters folded over the lines from position `i` on; the first
/// malformed line aborts the pass.
pub open spec fn spec_basic_fold(st: BasicStats, lines: Seq<Seq<u8>>, i: int) -> Result<
    BasicStats,
    Seq<u8>,
>
    decreases lines.len() - i,
{
    if i < 0 || i >= lines.len() {
        Ok(st)
    } else {
        match spec_process_line(st, lines[i]) {
            Err(e) => Err(e),
            Ok(st2) => spec_basic_fold(st2, lines, i + 1),
        }
    }
}

/// A minimum of the largest value — no segment seen — folds to zero.
pub open spec fn spec_normalized(st: BasicStats) -> BasicStats {
    if st.node_count == 0 {
        BasicStats { min_node_len: 0, ..st }
    } else {
        st
    }
}

/// The complete model of the streaming pass.
pub open spec fn spec_compute_basic(data: Seq<u8>) -> Result<BasicStats, Seq<u8>> {
    match spec_basic_fold(spec_init_basic(), split_bytes(data, 10u8), 0) {
        Err(e) => Err(e),
        Ok(st) => Ok(spec_normalized(st)),
    }
}

impl BasicStats {
    /// These counters with the never-seen minimum folded to zero.
    pub fn normalized(self) -> (r: Self)
        ensures
            r == spec_normalized(self),
    {
        if self.node_count == 0 {
            BasicStats { min_node_len: 0, ..self }
        } else {
            self
        }
    }
}

/// A 64-bit counter incremented by one, saturating.
fn bump_u64(c: u64) -> (r: u64)
    ensures
        r == bump(c),
{
    if c < u64::MAX {
        c + 1
    } else {
        c
    }
}

/// A saturating 64-bit addition.
fn add_u64(a: u64, b: u64) -> (r: u64)
    ensures
        r == sat64(a + b),
{
    if a > u64::MAX - b {
        u64::MAX
    } else {
        a + b
    }
}

/// The G/C and N base counts of one sequence.
fn gc_n_counts(s: &[u8]) -> (r: (u64, u64))
    ensures
        r.0 == count_gc(s@),
        r.1 == count_n(s@),
{
    let n = s.len();
    let mut gc: u64 = 0;
    let mut nn: u64 = 0;
    let mut i: usize = 0;
    proof {
        assert(s@.subrange(0, 0) =~= Seq::<u8>::empty());
    }
    while i < n
        invariant
            0 <= i <= n,
            n == s@.len(),
            gc == count_gc(s@.subrange(0, i as int)),
            nn == count_n(s@.subrange(0, i as int)),
        decreases n - i,
    {
        proof {
            crate::stats::lemma_counts_bounded(s@.subrange(0, i as int));
            lemma_count_n_bounded(s@.subrange(0, i as int));
            let next = s@.subrange(0, i + 1);
            assert(next.drop_last() =~= s@.subrange(0, i as int));
            assert(next.last() == s@[i as int]);
        }
        let b = s[i];
        if b == 71 || b == 103 || b == 67 || b == 99 {
            gc = gc + 1;
        } else if b == 78 || b == 110 {
            nn = nn + 1;
        }
        i = i + 1;
    }
    proof {
        assert(s@.subrange(0, n as int) =~= s@);
    }
    (gc, nn)
}

/// Applies a segment record's sequence field to the counters.
pub fn handle_segment_line(stats: &mut BasicStats, t: &[u8], original_line: &[u8]) -> (r: Result<
    (),
    GfaError,
>)
    ensures
        spec_handle_segment(*old(stats), t@, original_line@) matches Ok(st2) ==> (r is Ok
            && *final(stats) == st2),
        spec_handle_segment(*old(stats), t@, original_line@) matches Err(l) ==> (r matches Err(e)
            && e matches GfaError::MalformedLine(v) && v@ == l),
{
    let fields = split_bytes_exec(t, 9);
    if fields.len() < 3 {
        return Err(GfaError::MalformedLine(bytes_to_vec(original_line)));
    }
    let sq = &fields[2];
    proof {
        assert(fields.deep_view()[2] =~= fields@[2int]@);
    }
    let star = sq.len() == 1 && sq[0] == 42;
    proof {
        if star {
            assert(sq@ =~= seq![42u8]);
        } else {
            if sq@.len() == 1 {
                assert(seq![42u8][0] == 42u8);
            }
            assert(sq@ != seq![42u8]);
        }
    }
    if !star {
        let l = sq.len() as u64;
        stats.total_bp = add_u64(stats.total_bp, l);
        if l < stats.min_node_len {
            stats.min_node_len = l;
        }
        if l > stats.max_node_len {
            stats.max_node_len = l;
        }
        let (gc, nn) = gc_n_counts(sq.as_slice());
        proof {
            crate::stats::lemma_counts_bounded(sq@);
            lemma_count_n_bounded(sq@);
        }
        stats.gc_bases = add_u64(stats.gc_bases, gc);
        stats.n_bases = add_u64(stats.n_bases, nn);
    }
    Ok(())
}

/// Whether the first field of a split holds exactly this one byte.
fn first_field_is(fields: &Vec<Vec<u8>>, b: u8) -> (r: bool)
    requires
        fields@.len() >= 1,
    ensures
        r == (fields.deep_view()[0] == seq![b]),
{
    let f0 = &fields[0];
    let hit = f0.len() == 1 && f0[0] == b;
    proof {
        assert(fields.deep_view()[0] =~= fields@[0int]@);
        if hit {
            assert(f0@ =~= seq![b]);
        } else {
            if f0@.len() == 1 {
                assert(seq![b][0] == b);
            }
            assert(f0@ != seq![b]);
        }
    }
    hit
}

/// Applies one line to the counters.
pub fn process_line(stats: &mut BasicStats, line: &[u8]) -> (r: Result<(), GfaError>)
    ensures
        spec_process_line(*old(stats), line@) matches Ok(st2) ==> (r is Ok && *final(stats) == st2),
        spec_process_line(*old(stats), line@) matches Err(l) ==> (r matches Err(e) && e matches
            GfaError::MalformedLine(v) && v@ == l),
{
    let t = trim_bytes(line);
    if t.len() == 0 {
        return Ok(());
    }
    stats.total_lines = bump_u64(stats.total_lines);
    if t[0] == 35 {
        stats.comment_lines = bump_u64(stats.comment_lines);
        return Ok(());
    }
    let fields = split_bytes_exec(t.as_slice(), 9);
    if first_field_is(&fields, 83) {
        stats.node_count = bump_u64(stats.node_count);
        handle_segment_line(stats, t.as_slice(), line)
    } else if first_field_is(&fields, 76) {
        stats.edge_count = bump_u64(stats.edge_count);
        Ok(())
    } else if first_field_is(&fields, 80) {
        stats.path_count = bump_u64(stats.path_count);
        Ok(())
    } else {
        stats.other_records = bump_u64(stats.other_records);
        Ok(())
    }
}

/// One streaming pass over a complete text: every line applied in turn,
/// the minimum normalized at the end; the first malformed segment record
/// aborts the pass with its line.
pub fn compute_basic_stats(data: &[u8]) -> (r: Result<BasicStats, GfaError>)
    ensures
        spec_compute_basic(data@) matches Ok(st) ==> r == Ok::<BasicStats, GfaError>(st),
        spec_compute_basic(data@) matches Err(l) ==> (r matches Err(e) && e matches
            GfaError::MalformedLine(v) && v@ == l),
{
    let lines = split_bytes_exec(data, 10);
    let ghost lv = lines.deep_view();
    let mut stats = BasicStats::default();
    let n = lines.len();
    let mut i: usize = 0;
    while i < n
        invariant
            0 <= i <= n,
            n == lines@.len(),
            lv == lines.deep_view(),
            lv == split_bytes(data@, 10u8),
            spec_basic_fold(spec_init_basic(), lv, 0) == spec_basic_fold(stats, lv, i as int),
        decreases n - i,
    {
        proof {
            assert(lv[i as int] =~= lines@[i as int]@);
        }
        match process_line(&mut stats, lines[i].as_slice()) {
            Ok(_) => {},
            Err(e) => {
                return Err(e);
            },
        }
        i = i + 1;
    }
    Ok(stats.normalized())
}


// ------------------------------------------------------------------
// Topology statistics
// ------------------------------------------------------------------
/// Graph topology statistics from one streaming pass.
#[derive(Debug, Clone)]
pub struct GraphStats {
    /// The basic counters of the same pass.
    pub basic: BasicStats,
    /// N50 of the segment lengths.
    pub n50: u64,
    /// The 1-based rank at which the cumulative length first reaches half
    /// the total.
    pub l50: u64,
    /// Total degree against the number of segments bearing it, the rows
    /// in ascending degree order.
    pub degree_histogram: Vec<(u32, u64)>,
    /// Segments with total degree above two.
    pub branching_nodes: u64,
}

/// The streaming state of the topology pass.
pub struct GStateV {
    pub basic: BasicStats,
    pub lengths: Seq<u32>,
    pub degrees: Seq<(Seq<u8>, u32, u32)>,
}

pub open spec fn spec_init_gstate() -> GStateV {
    GStateV { basic: spec_init_basic(), lengths: Seq::empty(), degrees: Seq::empty() }
}

/// Clamps a non-negative integer into `u32`.
pub open spec fn sat32(x: int) -> u32 {
    if x > u32::MAX {
        u32::MAX
    } else {
        x as u32
    }
}

/// The predicate "this degree entry is keyed by `name`".
pub open spec fn deg_keyed(name: Seq<u8>) -> spec_fn((Seq<u8>, u32, u32)) -> bool {
    |e: (Seq<u8>, u32, u32)| e.0 == name
}

/// Makes sure a degree entry exists for this name, starting at zero.
pub open spec fn spec_ensure_entry(degs: Seq<(Seq<u8>, u32, u32)>, name: Seq<u8>) -> Seq<
    (Seq<u8>, u32, u32),
> {
    let i = find_index(degs, deg_keyed(name));
    if 0 <= i < degs.len() {
        degs
    } else {
        degs.push((name, 0u32, 0u32))
    }
}

/// Bumps the out-degree of this name, creating its entry when absent.
pub open spec fn spec_bump_out(degs: Seq<(Seq<u8>, u32, u32)>, name: Seq<u8>) -> Seq<
    (Seq<u8>, u32, u32),
> {
    let i = find_index(degs, deg_keyed(name));
    if 0 <= i < degs.len() {
        degs.update(i, (degs[i].0, degs[i].1, sat32(degs[i].2 + 1)))
    } else {
        degs.push((name, 0u32, 1u32))
    }
}

/// Bumps the in-degree of this name, creating its entry when absent.
pub open spec fn spec_bump_in(degs: Seq<(Seq<u8>, u32, u32)>, name: Seq<u8>) -> Seq<
    (Seq<u8>, u32, u32),
> {
    let i = find_index(degs, deg_keyed(name));
    if 0 <= i < degs.len() {
        degs.update(i, (degs[i].0, sat32(degs[i].1 + 1), degs[i].2))
    } else {
        degs.push((name, 1u32, 0u32))
    }
}

/// What one line does to the topology state.  The counters move exactly
/// as in the basic pass — the record kind read from the first tab field
/// of the trimmed line — and a segment record also records its sequence
/// length (clamped into 32 bits) and its name's degree entry, while a
/// link record bumps the out-degree of its second field and the
/// in-degree of its fourth, each when present.
pub open spec fn spec_gline(gs: GStateV, line: Seq<u8>) -> Result<GStateV, Seq<u8>> {
    let t = trimmed(line);
    if t.len() == 0 {
        Ok(gs)
    } else {
        let b1 = BasicStats { total_lines: bump(gs.basic.total_lines), ..gs.basic };
        if t[0] == 35u8 {
            Ok(
                GStateV {
                    basic: BasicStats { comment_lines: bump(b1.comment_lines), ..b1 },
                    ..gs
                },
            )
        } else if split_bytes(t, 9u8)[0] == seq![83u8] {
            let b2 = BasicStats { node_count: bump(b1.node_count), ..b1 };
            let fields = split_bytes(t, 9u8);
            if fields.len() < 3 {
                Err(line)
            } else {
                let sq = fields[2];
                let gs2 = if sq == seq![42u8] {
                    GStateV { basic: b2, ..gs }
                } else {
                    let l = sat64(sq.len() as int);
                    GStateV {
                        basic: BasicStats {
                            total_bp: sat64(b2.total_bp + l),
                            min_node_len: if l < b2.min_node_len {
                                l
                            } else {
                                b2.min_node_len
                            },
                            max_node_len: if l > b2.max_node_len {
                                l
                            } else {
                                b2.max_node_len
                            },
                            gc_bases: sat64(b2.gc_bases + count_gc(sq)),
                            n_bases: sat64(b2.n_bases + count_n(sq)),
                            ..b2
                        },
                        lengths: gs.lengths.push(sat32(sq.len() as int)),
                        ..gs
                    }
                };
                Ok(GStateV { degrees: spec_ensure_entry(gs2.degrees, fields[1]), ..gs2 })
            }
        } else if split_bytes(t, 9u8)[0] == seq![76u8] {
            let b2 = BasicStats { edge_count: bump(b1.edge_count), ..b1 };
            let fields = split_bytes(t, 9u8);
            let d1 = if fields.len() >= 2 {
                spec_bump_out(gs.degrees, fields[1])
            } else {
                gs.degrees
            };
            let d2 = if fields.len() >= 4 {
                spec_bump_in(d1, fields[3])
            } else {
                d1
            };
            Ok(GStateV { basic: b2, degrees: d2, ..gs })
        } else if split_bytes(t, 9u8)[0] == seq![80u8] {
            Ok(GStateV { basic: (BasicStats { path_count: bump(b1.path_count), ..b1 }), ..gs })
        } else {
            Ok(GStateV { basic: (BasicStats { other_records: bump(b1.other_records), ..b1 }), ..gs })
        }
    }
}

/// The topology state folded over the lines from position `i` on.
pub open spec fn spec_gfold(gs: GStateV, lines: Seq<Seq<u8>>, i: int) -> Result<GStateV, Seq<u8>>
    decreases lines.len() - i,
{
    if i < 0 || i >= lines.len() {
        Ok(gs)
    } else {
        match spec_gline(gs, lines[i]) {
            Err(e) => Err(e),
            Ok(gs2) => spec_gfold(gs2, lines, i + 1),
        }
    }
}

/// Descending order on 32-bit lengths.
pub open spec fn desc32_leq() -> spec_fn(u32, u32) -> bool {
    |a: u32, b: u32| a >= b
}

pub proof fn lemma_desc32_total()
    ensures
        vstd::relations::total_ordering(desc32_leq()),
{
    assert(forall|a: u32| #[trigger] desc32_leq()(a, a));
    assert(forall|a: u32, b: u32, c: u32|
        #[trigger] desc32_leq()(a, b) && #[trigger] desc32_leq()(b, c) ==> desc32_leq()(a, c));
    assert(forall|a: u32, b: u32|
        #[trigger] desc32_leq()(a, b) && #[trigger] desc32_leq()(b, a) ==> a == b);
    assert(forall|a: u32, b: u32| #[trigger] desc32_leq()(a, b) || #[trigger] desc32_leq()(b, a));
}

/// The N50/L50 scan over a descending-sorted list: the first length at
/// which the running sum reaches `half`, with its 1-based rank.
pub open spec fn scan32(s: Seq<u32>, acc: int, half: int, idx: int) -> (u64, u64)
    decreases s.len(),
{
    if s.len() == 0 {
        (0u64, 0u64)
    } else if acc + s[0] >= half {
        (s[0] as u64, sat64(idx))
    } else {
        scan32(s.drop_first(), acc + s[0], half, idx + 1)
    }
}

/// The N50 and L50 of 32-bit lengths against a given total — the
/// threshold is half the total rounded up — zero when there are no
/// lengths or no total.
pub open spec fn spec_n50_l50(lengths: Seq<u32>, total_bp: u64) -> (u64, u64) {
    if lengths.len() == 0 || total_bp == 0 {
        (0u64, 0u64)
    } else {
        scan32(lengths.sort_by(desc32_leq()), 0, (total_bp as int + 1) / 2, 1)
    }
}

/// Swapping two positions of a sequence keeps its multiset of values.
pub proof fn lemma_swap_multiset32(s: Seq<u32>, i: int, j: int)
    requires
        0 <= i < j < s.len(),
    ensures
        s.update(i, s[j]).update(j, s[i]).to_multiset() == s.to_multiset(),
{
    broadcast use vstd::seq_lib::to_multiset_update;
    broadcast use vstd::seq_lib::group_to_multiset_ensures;
    broadcast use vstd::multiset::group_multiset_axioms;

    let x = s[i];
    let y = s[j];
    let s1 = s.update(i, y);
    let s2 = s1.update(j, x);
    assert(s.contains(x));
    assert(s.to_multiset().count(x) > 0);
    assert(s1[j] == y);
    assert(s1.to_multiset() == s.to_multiset().insert(y).remove(x));
    assert(s2.to_multiset() == s1.to_multiset().insert(x).remove(y));
    assert(s1.to_multiset().count(y) > 0);
    assert(s2.to_multiset() =~= s.to_multiset());
}

/// Sorts a copy of the 32-bit lengths in descending order.
fn sort_desc32(v: &mut Vec<u32>)
    ensures
        vstd::relations::sorted_by(final(v)@, desc32_leq()),
        final(v)@.to_multiset() == old(v)@.to_multiset(),
        final(v)@.len() == old(v)@.len(),
{
    let n = v.len();
    if n <= 1 {
        proof {
            assert(vstd::relations::sorted_by(v@, desc32_leq()));
        }
        return ;
    }
    let mut i: usize = 1;
    while i < n
        invariant
            1 <= i <= n,
            n == v@.len(),
            v@.to_multiset() == old(v)@.to_multiset(),
            forall|a: int, b: int| 0 <= a < b < i ==> v@[a] >= v@[b],
        decreases n - i,
    {
        let mut j: usize = i;
        while j > 0 && v[j - 1] < v[j]
            invariant
                0 <= j <= i < n,
                n == v@.len(),
                v@.to_multiset() == old(v)@.to_multiset(),
                forall|a: int, b: int| 0 <= a < b <= i && b != j ==> v@[a] >= v@[b],
            decreases j,
        {
            let x = v[j - 1];
            let y = v[j];
            let ghost before = v@;
            v.set(j - 1, y);
            v.set(j, x);
            proof {
                assert(v@ == before.update(j - 1, y).update(j as int, x));
                lemma_swap_multiset32(before, j - 1, j as int);
                assert forall|a: int, b: int|
                    0 <= a < b <= i && b != j - 1 implies v@[a] >= v@[b] by {
                    if b == j {
                        if a == j - 1 {
                        } else {
                            assert(before[a] >= before[j - 1]);
                        }
                    } else if b > j {
                        if a == j - 1 {
                            assert(before[j as int] >= before[b]);
                        } else if a == j {
                            assert(before[j - 1] >= before[b]);
                        } else {
                            assert(before[a] >= before[b]);
                        }
                    } else {
                        assert(before[a] >= before[b]);
                    }
                }
            }
            j = j - 1;
        }
        proof {
            assert forall|a: int, b: int| 0 <= a < b < i + 1 implies v@[a] >= v@[b] by {
                if b == j && j > 0 {
                    if a == j - 1 {
                        assert(v@[j - 1] >= v@[j as int]);
                    } else {
                        assert(v@[a] >= v@[j - 1]);
                        assert(v@[j - 1] >= v@[j as int]);
                    }
                }
            }
        }
        i = i + 1;
    }
    proof {
        assert(vstd::relations::sorted_by(v@, desc32_leq()));
    }
}

/// The N50 and L50 of these lengths against the given total: over the
/// descending-sorted order, the length and 1-based rank at which the
/// cumulative sum first reaches half the total, rounded up; both zero
/// when there are no lengths, no total, or the sum never gets there.
pub fn compute_n50(lengths: &[u32], total_bp: u64) -> (r: (u64, u64))
    ensures
        r == spec_n50_l50(lengths@, total_bp),
{
    if lengths.len() == 0 || total_bp == 0 {
        return (0, 0);
    }
    let mut sorted = vstd::slice::slice_to_vec(lengths);
    sort_desc32(&mut sorted);
    proof {
        lemma_desc32_total();
        lengths@.lemma_sort_by_ensures(desc32_leq());
        vstd::seq_lib::lemma_sorted_unique(
            sorted@,
            lengths@.sort_by(desc32_leq()),
            desc32_leq(),
        );
    }
    let ghost sv = sorted@;
    let half = total_bp / 2 + total_bp % 2;
    let n = sorted.len();
    let mut cum: u64 = 0;
    let ghost acci: int = 0;
    let mut k: usize = 0;
    proof {
        assert(sv.skip(0) =~= sv);
    }
    while k < n
        invariant
            0 <= k <= n,
            n == sorted@.len(),
            sv == sorted@,
            sv == lengths@.sort_by(desc32_leq()),
            lengths@.len() > 0,
            total_bp != 0,
            half == (total_bp as int + 1) / 2,
            half < u64::MAX,
            cum == sat64(acci),
            acci >= 0,
            spec_n50_l50(lengths@, total_bp) == scan32(sv.skip(k as int), acci, half as int, k + 1),
        decreases n - k,
    {
        proof {
            assert(sv.skip(k as int)[0] == sv[k as int]);
            assert(sv.skip(k as int).drop_first() =~= sv.skip(k + 1));
        }
        let len = sorted[k];
        let new_cum = add_u64(cum, len as u64);
        proof {
            assert(new_cum == sat64(acci + len));
            if new_cum >= half {
                assert(acci + sv[k as int] >= half);
            } else {
                assert(acci + sv[k as int] < half);
            }
        }
        if new_cum >= half {
            proof {
                assert(k + 1 <= usize::MAX);
                assert(sat64(k + 1) == (k + 1) as u64);
            }
            return (len as u64, (k as u64) + 1);
        }
        cum = new_cum;
        proof {
            acci = acci + sv[k as int];
        }
        k = k + 1;
    }
    proof {
        assert(sv.skip(n as int) =~= Seq::<u32>::empty());
    }
    (0, 0)
}

/// The degree-entry view of the working vector.
pub open spec fn degs_view(v: Seq<(Vec<u8>, u32, u32)>) -> Seq<(Seq<u8>, u32, u32)> {
    Seq::new(v.len(), |i: int| (v[i].0@, v[i].1, v[i].2))
}

/// Makes sure a degree entry exists for this name.
fn ensure_entry_exec(degs: &mut Vec<(Vec<u8>, u32, u32)>, name: &[u8])
    ensures
        degs_view(final(degs)@) == spec_ensure_entry(degs_view(old(degs)@), name@),
{
    let n = degs.len();
    let mut i: usize = 0;
    while i < n
        invariant
            0 <= i <= n,
            n == degs@.len(),
            degs@ == old(degs)@,
            forall|j: int| 0 <= j < i ==> !deg_keyed(name@)(#[trigger] degs_view(degs@)[j]),
        decreases n - i,
    {
        let hit = crate::text::bytes_eq(degs[i].0.as_slice(), name);
        proof {
            assert(degs_view(degs@)[i as int] == (degs@[i as int].0@, degs@[i as int].1, degs@[i as int].2));
        }
        if hit {
            proof {
                assert(deg_keyed(name@)(degs_view(degs@)[i as int]));
                lemma_find_index_at(degs_view(degs@), deg_keyed(name@), i as int);
            }
            return ;
        }
        proof {
            assert(!deg_keyed(name@)(degs_view(degs@)[i as int]));
        }
        i = i + 1;
    }
    proof {
        lemma_find_index_none(degs_view(degs@), deg_keyed(name@));
    }
    let ghost prev = degs_view(degs@);
    degs.push((bytes_to_vec(name), 0, 0));
    proof {
        assert(degs_view(degs@) =~= prev.push((name@, 0u32, 0u32)));
    }
}

/// Bumps one side of the degree entry for this name, creating it when
/// absent; `out_side` selects the out-degree.
fn bump_degree_exec(degs: &mut Vec<(Vec<u8>, u32, u32)>, name: &[u8], out_side: bool)
    ensures
        out_side ==> degs_view(final(degs)@) == spec_bump_out(degs_view(old(degs)@), name@),
        !out_side ==> degs_view(final(degs)@) == spec_bump_in(degs_view(old(degs)@), name@),
{
    let n = degs.len();
    let mut i: usize = 0;
    while i < n
        invariant
            0 <= i <= n,
            n == degs@.len(),
            degs@ == old(degs)@,
            forall|j: int| 0 <= j < i ==> !deg_keyed(name@)(#[trigger] degs_view(degs@)[j]),
        decreases n - i,
    {
        let hit = crate::text::bytes_eq(degs[i].0.as_slice(), name);
        proof {
            assert(degs_view(degs@)[i as int] == (degs@[i as int].0@, degs@[i as int].1, degs@[i as int].2));
        }
        if hit {
            proof {
                assert(deg_keyed(name@)(degs_view(degs@)[i as int]));
                lemma_find_index_at(degs_view(degs@), deg_keyed(name@), i as int);
            }
            let key = bytes_to_vec(degs[i].0.as_slice());
            let ind = degs[i].1;
            let outd = degs[i].2;
            let ghost prev = degs_view(degs@);
            if out_side {
                let o2 = if outd < u32::MAX {
                    outd + 1
                } else {
                    outd
                };
                degs.set(i, (key, ind, o2));
                proof {
                    assert(degs_view(degs@) =~= prev.update(i as int, (prev[i as int].0, prev[i as int].1, sat32(prev[i as int].2 + 1))));
                }
            } else {
                let i2 = if ind < u32::MAX {
                    ind + 1
                } else {
                    ind
                };
                degs.set(i, (key, i2, outd));
                proof {
                    assert(degs_view(degs@) =~= prev.update(i as int, (prev[i as int].0, sat32(prev[i as int].1 + 1), prev[i as int].2)));
                }
            }
            return ;
        }
        proof {
            assert(!deg_keyed(name@)(degs_view(degs@)[i as int]));
        }
        i = i + 1;
    }
    proof {
        lemma_find_index_none(degs_view(degs@), deg_keyed(name@));
    }
    let ghost prev = degs_view(degs@);
    if out_side {
        degs.push((bytes_to_vec(name), 0, 1));
        proof {
            assert(degs_view(degs@) =~= prev.push((name@, 0u32, 1u32)));
        }
    } else {
        degs.push((bytes_to_vec(name), 1, 0));
        proof {
            assert(degs_view(degs@) =~= prev.push((name@, 1u32, 0u32)));
        }
    }
}

/// The total degree of each entry, in order, clamped into 32 bits.
pub open spec fn deg_totals(degs: Seq<(Seq<u8>, u32, u32)>) -> Seq<u64> {
    Seq::new(degs.len(), |i: int| sat32(degs[i].1 + degs[i].2) as u64)
}

/// How many entries have total degree above two.
pub open spec fn count_branching(degs: Seq<(Seq<u8>, u32, u32)>) -> int
    decreases degs.len(),
{
    if degs.len() == 0 {
        0
    } else {
        count_branching(degs.drop_last()) + if sat32(degs.last().1 + degs.last().2) > 2 {
            1int
        } else {
            0int
        }
    }
}

pub proof fn lemma_count_branching_bounded(degs: Seq<(Seq<u8>, u32, u32)>)
    ensures
        0 <= count_branching(degs) <= degs.len(),
    decreases degs.len(),
{
    if degs.len() > 0 {
        lemma_count_branching_bounded(degs.drop_last());
    }
}

/// The view of the histogram rows as degree/count pairs.
pub open spec fn hist_view(t: Seq<(u32, u64)>) -> Seq<(u64, usize)> {
    Seq::new(t.len(), |k: int| (t[k].0 as u64, t[k].1 as usize))
}

/// A value counted at least once among the first `i` occurs among them.
proof fn lemma_count_pos_exists(vals: Seq<u64>, d: u64, i: int)
    requires
        0 <= i <= vals.len(),
        crate::stats::count_val(vals, d, i) >= 1,
    ensures
        exists|j: int| 0 <= j < i && vals[j] == d,
    decreases i,
{
    if i > 0 {
        if vals[i - 1] == d {
        } else {
            lemma_count_pos_exists(vals, d, i - 1);
        }
    }
}

/// Applies one line to the topology state.
fn apply_gline(
    basic: &mut BasicStats,
    lengths: &mut Vec<u32>,
    degrees: &mut Vec<(Vec<u8>, u32, u32)>,
    line: &[u8],
) -> (r: Result<(), GfaError>)
    ensures
        ({
            let gs0 = GStateV {
                basic: *old(basic),
                lengths: old(lengths)@,
                degrees: degs_view(old(degrees)@),
            };
            &&& (spec_gline(gs0, line@) matches Ok(gs2) ==> (r is Ok && *final(basic) == gs2.basic
                && final(lengths)@ == gs2.lengths && degs_view(final(degrees)@) == gs2.degrees))
            &&& (spec_gline(gs0, line@) matches Err(l) ==> (r matches Err(e) && e matches
                GfaError::MalformedLine(v) && v@ == l))
        }),
{
    let t = trim_bytes(line);
    if t.len() == 0 {
        return Ok(());
    }
    basic.total_lines = bump_u64(basic.total_lines);
    if t[0] == 35 {
        basic.comment_lines = bump_u64(basic.comment_lines);
        return Ok(());
    }
    let fields = split_bytes_exec(t.as_slice(), 9);
    if first_field_is(&fields, 83) {
        basic.node_count = bump_u64(basic.node_count);
        if fields.len() < 3 {
            return Err(GfaError::MalformedLine(bytes_to_vec(line)));
        }
        let sq = &fields[2];
        proof {
            assert(fields.deep_view()[2] =~= fields@[2int]@);
            assert(fields.deep_view()[1] =~= fields@[1int]@);
        }
        let star = sq.len() == 1 && sq[0] == 42;
        proof {
            if star {
                assert(sq@ =~= seq![42u8]);
            } else {
                if sq@.len() == 1 {
                    assert(seq![42u8][0] == 42u8);
                }
                assert(sq@ != seq![42u8]);
            }
        }
        if !star {
            let l = sq.len() as u64;
            basic.total_bp = add_u64(basic.total_bp, l);
            if l < basic.min_node_len {
                basic.min_node_len = l;
            }
            if l > basic.max_node_len {
                basic.max_node_len = l;
            }
            let (gc, nn) = gc_n_counts(sq.as_slice());
            proof {
                crate::stats::lemma_counts_bounded(sq@);
                lemma_count_n_bounded(sq@);
            }
            basic.gc_bases = add_u64(basic.gc_bases, gc);
            basic.n_bases = add_u64(basic.n_bases, nn);
            let l32 = if sq.len() <= u32::MAX as usize {
                sq.len() as u32
            } else {
                u32::MAX
            };
            let ghost prev = lengths@;
            lengths.push(l32);
            proof {
                assert(lengths@ =~= prev.push(sat32(sq@.len() as int)));
            }
        }
        ensure_entry_exec(degrees, fields[1].as_slice());
        return Ok(());
    }
    if first_field_is(&fields, 76) {
        basic.edge_count = bump_u64(basic.edge_count);
        if fields.len() >= 2 {
            proof {
                assert(fields.deep_view()[1] =~= fields@[1int]@);
            }
            bump_degree_exec(degrees, fields[1].as_slice(), true);
        }
        if fields.len() >= 4 {
            proof {
                assert(fields.deep_view()[3] =~= fields@[3int]@);
            }
            bump_degree_exec(degrees, fields[3].as_slice(), false);
        }
        return Ok(());
    }
    if first_field_is(&fields, 80) {
        basic.path_count = bump_u64(basic.path_count);
        return Ok(());
    }
    basic.other_records = bump_u64(basic.other_records);
    Ok(())
}

/// What the topology report owes to the folded state: the normalized
/// counters, the N50/L50 pair of the recorded lengths against the total,
/// the distribution table of the total degrees, and the branching count.
pub open spec fn graph_stats_of(g: GraphStats, gs: GStateV) -> bool {
    &&& g.basic == spec_normalized(gs.basic)
    &&& (g.n50, g.l50) == spec_n50_l50(gs.lengths, spec_normalized(gs.basic).total_bp)
    &&& dist_of(hist_view(g.degree_histogram@), deg_totals(gs.degrees))
    &&& g.branching_nodes == sat64(count_branching(gs.degrees))
}

/// One topology pass over a complete text: the counters of the basic
/// pass, the N50 and L50 of the segment lengths, the total-degree
/// histogram, and the count of branching segments (total degree above
/// two); the first malformed segment record aborts the pass.
pub fn compute_graph_stats(data: &[u8]) -> (r: Result<GraphStats, GfaError>)
    ensures
        spec_gfold(spec_init_gstate(), split_bytes(data@, 10u8), 0) matches Ok(gs) ==> (r matches
            Ok(g) && graph_stats_of(g, gs)),
        spec_gfold(spec_init_gstate(), split_bytes(data@, 10u8), 0) matches Err(l) ==> (r matches
            Err(e) && e matches GfaError::MalformedLine(v) && v@ == l),
{
    let lines = split_bytes_exec(data, 10);
    let ghost lv = lines.deep_view();
    let mut basic = BasicStats::default();
    let mut lengths: Vec<u32> = Vec::new();
    let mut degrees: Vec<(Vec<u8>, u32, u32)> = Vec::new();
    proof {
        assert(lengths@ =~= spec_init_gstate().lengths);
        assert(degs_view(degrees@) =~= spec_init_gstate().degrees);
    }
    let n = lines.len();
    let mut i: usize = 0;
    while i < n
        invariant
            0 <= i <= n,
            n == lines@.len(),
            lv == lines.deep_view(),
            lv == split_bytes(data@, 10u8),
            spec_gfold(spec_init_gstate(), lv, 0) == spec_gfold(
                GStateV { basic: basic, lengths: lengths@, degrees: degs_view(degrees@) },
                lv,
                i as int,
            ),
        decreases n - i,
    {
        proof {
            assert(lv[i as int] =~= lines@[i as int]@);
        }
        match apply_gline(&mut basic, &mut lengths, &mut degrees, lines[i].as_slice()) {
            Ok(_) => {},
            Err(e) => {
                return Err(e);
            },
        }
        i = i + 1;
    }
    let basic = basic.normalized();
    let (n50, l50) = compute_n50(lengths.as_slice(), basic.total_bp);
    let dn = degrees.len();
    let mut totals: Vec<u64> = Vec::new();
    let mut branching: u64 = 0;
    let mut k: usize = 0;
    proof {
        assert(degs_view(degrees@).subrange(0, 0) =~= Seq::<(Seq<u8>, u32, u32)>::empty());
    }
    while k < dn
        invariant
            0 <= k <= dn,
            dn == degrees@.len(),
            totals@.len() == k,
            forall|j: int|
                0 <= j < k ==> totals@[j] == (#[trigger] deg_totals(degs_view(degrees@))[j]),
            branching == sat64(count_branching(degs_view(degrees@).subrange(0, k as int))),
        decreases dn - k,
    {
        proof {
            assert(degs_view(degrees@)[k as int] == (degrees@[k as int].0@, degrees@[k as int].1, degrees@[k as int].2));
            lemma_count_branching_bounded(degs_view(degrees@).subrange(0, k as int));
            let next = degs_view(degrees@).subrange(0, k + 1);
            assert(next.drop_last() =~= degs_view(degrees@).subrange(0, k as int));
            assert(next.last() == degs_view(degrees@)[k as int]);
        }
        let ind = degrees[k].1;
        let outd = degrees[k].2;
        let tot: u32 = if ind > u32::MAX - outd {
            u32::MAX
        } else {
            ind + outd
        };
        totals.push(tot as u64);
        if tot > 2 {
            branching = if branching < u64::MAX {
                branching + 1
            } else {
                branching
            };
        }
        k = k + 1;
    }
    proof {
        assert(totals@ =~= deg_totals(degs_view(degrees@)));
        assert(degs_view(degrees@).subrange(0, dn as int) =~= degs_view(degrees@));
    }
    let table = distribution(&totals);
    let tn = table.len();
    let mut hist: Vec<(u32, u64)> = Vec::new();
    let mut h: usize = 0;
    while h < tn
        invariant
            0 <= h <= tn,
            tn == table@.len(),
            dist_of(table@, totals@),
            totals@ == deg_totals(degs_view(degrees@)),
            hist@.len() == h,
            forall|j: int|
                0 <= j < h ==> (#[trigger] hist_view(hist@)[j]) == table@[j],
        decreases tn - h,
    {
        let (d, c) = (table[h].0, table[h].1);
        proof {
            assert(table@[h as int].1 == crate::stats::count_val(totals@, d, totals@.len() as int)
                && table@[h as int].1 >= 1);
            lemma_count_pos_exists(totals@, d, totals@.len() as int);
            let w = choose|j: int| 0 <= j < totals@.len() && totals@[j] == d;
            assert(totals@[w] == deg_totals(degs_view(degrees@))[w]);
            assert(d <= u32::MAX);
        }
        let ghost prev_h = hist@;
        hist.push((d as u32, c as u64));
        proof {
            assert forall|j: int|
                0 <= j < h + 1 implies (#[trigger] hist_view(hist@)[j]) == table@[j] by {
                if j < h {
                    assert(hist@[j] == prev_h[j]);
                    assert(hist_view(prev_h)[j] == table@[j]);
                    assert(hist_view(hist@)[j] == hist_view(prev_h)[j]);
                } else {
                    assert(hist_view(hist@)[j] == table@[h as int]);
                }
            }
        }
        h = h + 1;
    }
    proof {
        assert(hist_view(hist@) =~= table@);
    }
    let bn = branching;
    Ok(GraphStats { basic, n50, l50, degree_histogram: hist, branching_nodes: bn })
}


/// One streaming pass over a gzip-compressed text: the bytes are
/// decompressed and the pass runs on the result.  A malformed gzip
/// stream — and nothing else — is an input error.
pub fn compute_basic_stats_gzipped(data: &Vec<u8>) -> (r: Result<BasicStats, GfaError>)
    ensures
        !crate::gfa::gunzip_ok(data@) ==> (r matches Err(e) && e is Io),
        crate::gfa::gunzip_ok(data@) ==> (match spec_compute_basic(crate::gfa::gunzip_of(data@)) {
            Ok(st) => r == Ok::<BasicStats, GfaError>(st),
            Err(l) => r matches Err(e) && e matches GfaError::MalformedLine(v) && v@ == l,
        }),
{
    match crate::gfa::gunzip(data) {
        Err(e) => match e {
            crate::error::PgToolsError::Io(m) => Err(GfaError::Io(m)),
            _ => Err(GfaError::Io(String::new())),
        },
        Ok(bytes) => compute_basic_stats(bytes.as_slice()),
    }
}

/// One topology pass over a gzip-compressed text: the bytes are
/// decompressed and the pass runs on the result.  A malformed gzip
/// stream — and nothing else — is an input error.
pub fn compute_graph_stats_gzipped(data: &Vec<u8>) -> (r: Result<GraphStats, GfaError>)
    ensures
        !crate::gfa::gunzip_ok(data@) ==> (r matches Err(e) && e is Io),
        crate::gfa::gunzip_ok(data@) ==> (match spec_gfold(
            spec_init_gstate(),
            split_bytes(crate::gfa::gunzip_of(data@), 10u8),
            0,
        ) {
            Ok(gs) => r matches Ok(g) && graph_stats_of(g, gs),
            Err(l) => r matches Err(e) && e matches GfaError::MalformedLine(v) && v@ == l,
        }),
{
    match crate::gfa::gunzip(data) {
        Err(e) => match e {
            crate::error::PgToolsError::Io(m) => Err(GfaError::Io(m)),
            _ => Err(GfaError::Io(String::new())),
        },
        Ok(bytes) => compute_graph_stats(bytes.as_slice()),
    }
}

} // verus!
