//! Index building and queries for graphs: a segment index, a path index,
//! and a position index for coordinate lookups, built independently or all
//! together, and queried without re-reading the source text.

use crate::error::PgToolsError;
use crate::gfa::{sat64, seg_named, GfaGraph, GraphV, SegmentV, StepV};
use crate::text::{bytes_eq, bytes_to_vec, find_index, lemma_find_index, lemma_find_index_at,
    lemma_find_index_none};
use vstd::pervasive::VecAdditionalExecFns;
use vstd::prelude::*;

verus! {

/// The format version this crate writes and the highest it reads.
pub const INDEX_VERSION: u32 = 1;

/// Which sub-indexes to build.
#[derive(Debug, Clone, Copy, PartialEq, Eq, Structural)]
pub enum IndexType {
    /// Segment lookup by name.
    Segment,
    /// Path lookup by name.
    Path,
    /// Coordinate queries along paths.
    Position,
    /// All three sub-indexes.
    Full,
}

/// The lower-case form of an ASCII byte.
pub open spec fn spec_lower_byte(b: u8) -> u8 {
    if 65 <= b <= 90 {
        (b + 32) as u8
    } else {
        b
    }
}

/// The byte string with every ASCII letter lowered.
pub open spec fn spec_lower(s: Seq<u8>) -> Seq<u8> {
    s.map_values(|b: u8| spec_lower_byte(b))
}

pub open spec fn name_segment() -> Seq<u8> {
    seq![115u8, 101u8, 103u8, 109u8, 101u8, 110u8, 116u8]
}

pub open spec fn name_seg() -> Seq<u8> {
    seq![115u8, 101u8, 103u8]
}

pub open spec fn name_s() -> Seq<u8> {
    seq![115u8]
}

pub open spec fn name_path() -> Seq<u8> {
    seq![112u8, 97u8, 116u8, 104u8]
}

pub open spec fn name_p() -> Seq<u8> {
    seq![112u8]
}

pub open spec fn name_position() -> Seq<u8> {
    seq![112u8, 111u8, 115u8, 105u8, 116u8, 105u8, 111u8, 110u8]
}

pub open spec fn name_pos() -> Seq<u8> {
    seq![112u8, 111u8, 115u8]
}

pub open spec fn name_full() -> Seq<u8> {
    seq![102u8, 117u8, 108u8, 108u8]
}

pub open spec fn name_all() -> Seq<u8> {
    seq![97u8, 108u8, 108u8]
}

pub open spec fn name_f() -> Seq<u8> {
    seq![102u8]
}

/// The index variant a name denotes, case-insensitively: `segment`, `seg`
/// or `s`; `path` or `p`; `position` or `pos`; `full`, `all` or `f`.
pub open spec fn spec_index_type(s: Seq<u8>) -> Option<IndexType> {
    let t = spec_lower(s);
    if t == name_segment() || t == name_seg() || t == name_s() {
        Some(IndexType::Segment)
    } else if t == name_path() || t == name_p() {
        Some(IndexType::Path)
    } else if t == name_position() || t == name_pos() {
        Some(IndexType::Position)
    } else if t == name_full() || t == name_all() || t == name_f() {
        Some(IndexType::Full)
    } else {
        None
    }
}

/// One entry of the segment index.
#[derive(Debug, Clone)]
pub struct SegmentIndexEntry {
    /// Segment name.
    pub name: Vec<u8>,
    /// Sequence length.
    pub sequence_length: usize,
    /// Ordinal position, not a byte offset into the source file.
    pub file_offset: u64,
}

/// Specification model of a [`SegmentIndexEntry`].
pub struct SegEntryV {
    pub name: Seq<u8>,
    pub sequence_length: usize,
    pub file_offset: u64,
}

impl View for SegmentIndexEntry {
    type V = SegEntryV;

    open spec fn view(&self) -> SegEntryV {
        SegEntryV {
            name: self.name@,
            sequence_length: self.sequence_length,
            file_offset: self.file_offset,
        }
    }
}

impl DeepView for SegmentIndexEntry {
    type V = SegEntryV;

    open spec fn deep_view(&self) -> SegEntryV {
        self.view()
    }
}

/// One entry of the path index.
#[derive(Debug, Clone)]
pub struct PathIndexEntry {
    /// Path name.
    pub name: Vec<u8>,
    /// Number of steps.
    pub step_count: usize,
    /// Total sequence length over the steps, saturating at the largest
    /// 64-bit value.
    pub total_length: u64,
    /// Ordinal position, not a byte offset into the source file.
    pub file_offset: u64,
}

/// Specification model of a [`PathIndexEntry`].
pub struct PathEntryV {
    pub name: Seq<u8>,
    pub step_count: usize,
    pub total_length: u64,
    pub file_offset: u64,
}

impl View for PathIndexEntry {
    type V = PathEntryV;

    open spec fn view(&self) -> PathEntryV {
        PathEntryV {
            name: self.name@,
            step_count: self.step_count,
            total_length: self.total_length,
            file_offset: self.file_offset,
        }
    }
}

impl DeepView for PathIndexEntry {
    type V = PathEntryV;

    open spec fn deep_view(&self) -> PathEntryV {
        self.view()
    }
}

/// One entry of the position index: a half-open coordinate range along a
/// path's concatenated sequence.
#[derive(Debug, Clone)]
pub struct PositionIndexEntry {
    /// Path name.
    pub path_name: Vec<u8>,
    /// Start coordinate of the step, inclusive.
    pub start: u64,
    /// End coordinate of the step, exclusive.
    pub end: u64,
    /// The segment this step traverses.
    pub segment_name: Vec<u8>,
    /// The step's position within its path.
    pub step_index: usize,
}

/// Specification model of a [`PositionIndexEntry`].
pub struct PosEntryV {
    pub path_name: Seq<u8>,
    pub start: u64,
    pub end: u64,
    pub segment_name: Seq<u8>,
    pub step_index: usize,
}

impl View for PositionIndexEntry {
    type V = PosEntryV;

    open spec fn view(&self) -> PosEntryV {
        PosEntryV {
            path_name: self.path_name@,
            start: self.start,
            end: self.end,
            segment_name: self.segment_name@,
            step_index: self.step_index,
        }
    }
}

impl DeepView for PositionIndexEntry {
    type V = PosEntryV;

    open spec fn deep_view(&self) -> PosEntryV {
        self.view()
    }
}

/// The segment index: one entry per segment, keyed by name.
#[derive(Debug, Clone)]
pub struct SegmentIndex {
    /// The entries; no two share a name.
    pub entries: Vec<SegmentIndexEntry>,
}

impl View for SegmentIndex {
    type V = Seq<SegEntryV>;

    open spec fn view(&self) -> Seq<SegEntryV> {
        self.entries.deep_view()
    }
}

/// The path index: one entry per path name (the last path of a duplicated
/// name wins), plus every path name in source order.
#[derive(Debug, Clone)]
pub struct PathIndex {
    /// The entries; no two share a name.
    pub entries: Vec<PathIndexEntry>,
    /// All path names in source order, duplicates kept.
    pub path_names: Vec<Vec<u8>>,
}

/// Specification model of a [`PathIndex`].
pub struct PathIndexV {
    pub entries: Seq<PathEntryV>,
    pub path_names: Seq<Seq<u8>>,
}

impl View for PathIndex {
    type V = PathIndexV;

    open spec fn view(&self) -> PathIndexV {
        PathIndexV { entries: self.entries.deep_view(), path_names: self.path_names.deep_view() }
    }
}

/// The position index: for each path name, the entries of its steps in
/// coordinate order.
#[derive(Debug, Clone)]
pub struct PositionIndex {
    /// Groups keyed by path name; no two share a name.
    pub entries: Vec<(Vec<u8>, Vec<PositionIndexEntry>)>,
}

/// The view of the position-index groups.
pub open spec fn groups_view(v: Seq<(Vec<u8>, Vec<PositionIndexEntry>)>) -> Seq<
    (Seq<u8>, Seq<PosEntryV>),
> {
    Seq::new(v.len(), |i: int| (v[i].0@, v[i].1.deep_view()))
}

impl View for PositionIndex {
    type V = Seq<(Seq<u8>, Seq<PosEntryV>)>;

    open spec fn view(&self) -> Seq<(Seq<u8>, Seq<PosEntryV>)> {
        groups_view(self.entries@)
    }
}

/// The complete index: provenance, format version, and up to three
/// independently optional sub-indexes.
#[derive(Debug, Clone)]
pub struct GfaIndex {
    /// The source file this index was built from; recorded, not checked.
    pub source_file: Vec<u8>,
    /// Format version.
    pub version: u32,
    /// Lookup by segment name, when built.
    pub segment_index: Option<SegmentIndex>,
    /// Lookup by path name, when built.
    pub path_index: Option<PathIndex>,
    /// Coordinate queries, when built.
    pub position_index: Option<PositionIndex>,
}

/// Specification model of a [`GfaIndex`].
pub struct IndexV {
    pub source_file: Seq<u8>,
    pub version: u32,
    pub segment_index: Option<Seq<SegEntryV>>,
    pub path_index: Option<PathIndexV>,
    pub position_index: Option<Seq<(Seq<u8>, Seq<PosEntryV>)>>,
}

impl View for GfaIndex {
    type V = IndexV;

    open spec fn view(&self) -> IndexV {
        IndexV {
            source_file: self.source_file@,
            version: self.version,
            segment_index: (match self.segment_index {
                Some(si) => Some(si@),
                None => None,
            }),
            path_index: (match self.path_index {
                Some(pi) => Some(pi@),
                None => None,
            }),
            position_index: (match self.position_index {
                Some(pi) => Some(pi@),
                None => None,
            }),
        }
    }
}

// ------------------------------------------------------------------
// Specification model of index building
// ------------------------------------------------------------------
/// The segment index of a graph: one entry per segment, in the graph's
/// segment order, with its ordinal position as the file offset.
pub open spec fn spec_seg_entries(segs: Seq<SegmentV>) -> Seq<SegEntryV> {
    Seq::new(
        segs.len(),
        |i: int|
            SegEntryV {
                name: segs[i].name,
                sequence_length: segs[i].sequence.len() as usize,
                file_offset: i as u64,
            },
    )
}

/// The sequence length of the segment named `name`, or 0 when the graph
/// holds no segment of that name.  This is the raw stored length: a `*`
/// placeholder counts as one byte here, so path coordinates always match
/// the stored sequences step for step, while the graph's total sequence
/// length counts the placeholder as zero.
pub open spec fn spec_step_len(segs: Seq<SegmentV>, name: Seq<u8>) -> int {
    let i = find_index(segs, seg_named(name));
    if 0 <= i < segs.len() {
        segs[i].sequence.len() as int
    } else {
        0
    }
}

/// The sum of the step lengths of `steps[0..j]`, as a mathematical
/// integer.
pub open spec fn spec_prefix_len(segs: Seq<SegmentV>, steps: Seq<StepV>, j: int) -> int
    decreases j,
{
    if j <= 0 {
        0
    } else {
        spec_prefix_len(segs, steps, j - 1) + spec_step_len(segs, steps[j - 1].segment)
    }
}

/// The predicate "this path entry bears the name `name`".
pub open spec fn path_entry_named(name: Seq<u8>) -> spec_fn(PathEntryV) -> bool {
    |e: PathEntryV| e.name == name
}

/// Inserts or replaces the path entry with this name, keeping the
/// position of an existing name.
pub open spec fn spec_upsert_path_entry(entries: Seq<PathEntryV>, e: PathEntryV) -> Seq<
    PathEntryV,
> {
    let i = find_index(entries, path_entry_named(e.name));
    if 0 <= i < entries.len() {
        entries.update(i, e)
    } else {
        entries.push(e)
    }
}

/// The path entry of the path at position `i` of the graph.
pub open spec fn spec_path_entry(g: GraphV, i: int) -> PathEntryV {
    PathEntryV {
        name: g.paths[i].name,
        step_count: g.paths[i].steps.len() as usize,
        total_length: sat64(spec_prefix_len(g.segments, g.paths[i].steps, g.paths[i].steps.len() as int)),
        file_offset: i as u64,
    }
}

/// Folds the paths from position `i` on into the path-entry map.
pub open spec fn spec_path_entries_fold(g: GraphV, i: int, acc: Seq<PathEntryV>) -> Seq<
    PathEntryV,
>
    decreases g.paths.len() - i,
{
    if i < 0 || i >= g.paths.len() {
        acc
    } else {
        spec_path_entries_fold(g, i + 1, spec_upsert_path_entry(acc, spec_path_entry(g, i)))
    }
}

/// The path index of a graph.
pub open spec fn spec_path_index(g: GraphV) -> PathIndexV {
    PathIndexV {
        entries: spec_path_entries_fold(g, 0, Seq::empty()),
        path_names: Seq::new(g.paths.len(), |i: int| g.paths[i].name),
    }
}

/// The position entries of one path: one half-open range per step, each
/// beginning where the previous ended; a step whose segment the graph
/// does not hold contributes an empty range and no coordinate advance.
pub open spec fn spec_pos_entries(segs: Seq<SegmentV>, pname: Seq<u8>, steps: Seq<StepV>) -> Seq<
    PosEntryV,
> {
    Seq::new(
        steps.len(),
        |j: int|
            PosEntryV {
                path_name: pname,
                start: sat64(spec_prefix_len(segs, steps, j)),
                end: sat64(spec_prefix_len(segs, steps, j + 1)),
                segment_name: steps[j].segment,
                step_index: j as usize,
            },
    )
}

/// The predicate "this group bears the name `name`".
pub open spec fn group_named(name: Seq<u8>) -> spec_fn((Seq<u8>, Seq<PosEntryV>)) -> bool {
    |gr: (Seq<u8>, Seq<PosEntryV>)| gr.0 == name
}

/// Inserts or replaces the group with this name.
pub open spec fn spec_upsert_group(
    groups: Seq<(Seq<u8>, Seq<PosEntryV>)>,
    gr: (Seq<u8>, Seq<PosEntryV>),
) -> Seq<(Seq<u8>, Seq<PosEntryV>)> {
    let i = find_index(groups, group_named(gr.0));
    if 0 <= i < groups.len() {
        groups.update(i, gr)
    } else {
        groups.push(gr)
    }
}

/// Folds the paths from position `i` on into the position-index groups.
pub open spec fn spec_pos_groups_fold(
    g: GraphV,
    i: int,
    acc: Seq<(Seq<u8>, Seq<PosEntryV>)>,
) -> Seq<(Seq<u8>, Seq<PosEntryV>)>
    decreases g.paths.len() - i,
{
    if i < 0 || i >= g.paths.len() {
        acc
    } else {
        spec_pos_groups_fold(
            g,
            i + 1,
            spec_upsert_group(
                acc,
                (g.paths[i].name, spec_pos_entries(g.segments, g.paths[i].name, g.paths[i].steps)),
            ),
        )
    }
}

/// The position index of a graph.
pub open spec fn spec_position_index(g: GraphV) -> Seq<(Seq<u8>, Seq<PosEntryV>)> {
    spec_pos_groups_fold(g, 0, Seq::empty())
}

/// The complete index a build produces for a graph, a provenance string
/// and a variant choice.
pub open spec fn spec_build(g: GraphV, source: Seq<u8>, t: IndexType) -> IndexV {
    IndexV {
        source_file: source,
        version: INDEX_VERSION,
        segment_index: if t == IndexType::Segment || t == IndexType::Full {
            Some(spec_seg_entries(g.segments))
        } else {
            None
        },
        path_index: if t == IndexType::Path || t == IndexType::Full {
            Some(spec_path_index(g))
        } else {
            None
        },
        position_index: if t == IndexType::Position || t == IndexType::Full {
            Some(spec_position_index(g))
        } else {
            None
        },
    }
}

pub proof fn lemma_prefix_len_nonneg(segs: Seq<SegmentV>, steps: Seq<StepV>, j: int)
    ensures
        spec_prefix_len(segs, steps, j) >= 0,
    decreases j,
{
    if j > 0 {
        lemma_prefix_len_nonneg(segs, steps, j - 1);
    }
}

// ------------------------------------------------------------------
// Executable helpers
// ------------------------------------------------------------------
/// A byte vector holding exactly one given byte.
fn word1(a: u8) -> (r: Vec<u8>)
    ensures
        r@ == seq![a],
{
    let mut r: Vec<u8> = Vec::new();
    r.push(a);
    proof {
        assert(r@ =~= seq![a]);
    }
    r
}

/// A byte vector holding exactly three given bytes.
fn word3(a: u8, b: u8, c: u8) -> (r: Vec<u8>)
    ensures
        r@ == seq![a, b, c],
{
    let mut r: Vec<u8> = Vec::new();
    r.push(a);
    r.push(b);
    r.push(c);
    proof {
        assert(r@ =~= seq![a, b, c]);
    }
    r
}

/// A byte vector holding exactly four given bytes.
fn word4(a: u8, b: u8, c: u8, d: u8) -> (r: Vec<u8>)
    ensures
        r@ == seq![a, b, c, d],
{
    let mut r: Vec<u8> = Vec::new();
    r.push(a);
    r.push(b);
    r.push(c);
    r.push(d);
    proof {
        assert(r@ =~= seq![a, b, c, d]);
    }
    r
}

/// A byte vector holding exactly seven given bytes.
fn word7(a: u8, b: u8, c: u8, d: u8, e: u8, f: u8, g: u8) -> (r: Vec<u8>)
    ensures
        r@ == seq![a, b, c, d, e, f, g],
{
    let mut r: Vec<u8> = Vec::new();
    r.push(a);
    r.push(b);
    r.push(c);
    r.push(d);
    r.push(e);
    r.push(f);
    r.push(g);
    proof {
        assert(r@ =~= seq![a, b, c, d, e, f, g]);
    }
    r
}

/// A byte vector holding exactly eight given bytes.
fn word8(a: u8, b: u8, c: u8, d: u8, e: u8, f: u8, g: u8, h: u8) -> (r: Vec<u8>)
    ensures
        r@ == seq![a, b, c, d, e, f, g, h],
{
    let mut r: Vec<u8> = Vec::new();
    r.push(a);
    r.push(b);
    r.push(c);
    r.push(d);
    r.push(e);
    r.push(f);
    r.push(g);
    r.push(h);
    proof {
        assert(r@ =~= seq![a, b, c, d, e, f, g, h]);
    }
    r
}

/// A copy of `s` with every ASCII letter lowered.
fn lower_bytes(s: &[u8]) -> (r: Vec<u8>)
    ensures
        r@ == spec_lower(s@),
{
    let n = s.len();
    let mut r: Vec<u8> = Vec::new();
    let mut i: usize = 0;
    while i < n
        invariant
            0 <= i <= n,
            n == s@.len(),
            r@.len() == i,
            forall|j: int| 0 <= j < i ==> r@[j] == spec_lower_byte(#[trigger] s@[j]),
        decreases n - i,
    {
        let b = s[i];
        if 65 <= b && b <= 90 {
            r.push(b + 32);
        } else {
            r.push(b);
        }
        i = i + 1;
    }
    proof {
        assert(r@ =~= spec_lower(s@));
    }
    r
}

impl IndexType {
    /// Parses an index-variant name, case-insensitively: `segment`, `seg`
    /// or `s`; `path` or `p`; `position` or `pos`; `full`, `all` or `f`.
    pub fn parse_name(s: &[u8]) -> (r: Result<IndexType, PgToolsError>)
        ensures
            spec_index_type(s@) matches Some(t) ==> r == Ok::<IndexType, PgToolsError>(t),
            spec_index_type(s@) is None ==> (r matches Err(e) && e matches
                PgToolsError::InvalidInput(m) && m@
                == "Unknown index type: valid types are segment, path, position, full"@),
    {
        let t = lower_bytes(s);
        if bytes_eq(t.as_slice(), word7(115, 101, 103, 109, 101, 110, 116).as_slice()) || bytes_eq(
            t.as_slice(),
            word3(115, 101, 103).as_slice(),
        ) || bytes_eq(t.as_slice(), word1(115).as_slice()) {
            Ok(IndexType::Segment)
        } else if bytes_eq(t.as_slice(), word4(112, 97, 116, 104).as_slice()) || bytes_eq(
            t.as_slice(),
            word1(112).as_slice(),
        ) {
            Ok(IndexType::Path)
        } else if bytes_eq(t.as_slice(), word8(112, 111, 115, 105, 116, 105, 111, 110).as_slice())
            || bytes_eq(t.as_slice(), word3(112, 111, 115).as_slice()) {
            Ok(IndexType::Position)
        } else if bytes_eq(t.as_slice(), word4(102, 117, 108, 108).as_slice()) || bytes_eq(
            t.as_slice(),
            word3(97, 108, 108).as_slice(),
        ) || bytes_eq(t.as_slice(), word1(102).as_slice()) {
            Ok(IndexType::Full)
        } else {
            Err(
                PgToolsError::InvalidInput(
                    "Unknown index type: valid types are segment, path, position, full".to_owned(),
                ),
            )
        }
    }

    /// The canonical name of this variant.
    pub fn to_string(&self) -> (r: String)
        ensures
            *self is Segment ==> r@ == "segment"@,
            *self is Path ==> r@ == "path"@,
            *self is Position ==> r@ == "position"@,
            *self is Full ==> r@ == "full"@,
    {
        match self {
            IndexType::Segment => "segment".to_owned(),
            IndexType::Path => "path".to_owned(),
            IndexType::Position => "position".to_owned(),
            IndexType::Full => "full".to_owned(),
        }
    }
}

impl core::str::FromStr for IndexType {
    type Err = PgToolsError;

    fn from_str(s: &str) -> Result<IndexType, PgToolsError> {
        IndexType::parse_name(s.as_bytes())
    }
}

/// The predicate "this segment entry bears the name `name`".
pub open spec fn seg_entry_named(name: Seq<u8>) -> spec_fn(SegEntryV) -> bool {
    |e: SegEntryV| e.name == name
}

/// The predicate "this coordinate range contains `position`".
pub open spec fn pos_containing(position: u64) -> spec_fn(PosEntryV) -> bool {
    |e: PosEntryV| e.start <= position && position < e.end
}

/// Inserts or replaces the path entry with this name, keeping the
/// position of an existing name.
fn upsert_path_entry_exec(entries: &mut Vec<PathIndexEntry>, e: PathIndexEntry)
    ensures
        final(entries).deep_view() == spec_upsert_path_entry(old(entries).deep_view(), e@),
{
    let ghost ev = e@;
    let n = entries.len();
    let mut i: usize = 0;
    while i < n
        invariant
            0 <= i <= n,
            n == entries@.len(),
            entries@ == old(entries)@,
            forall|j: int| 0 <= j < i ==> !path_entry_named(ev.name)(
                #[trigger] entries.deep_view()[j],
            ),
            ev == e@,
        decreases n - i,
    {
        let hit = bytes_eq(entries[i].name.as_slice(), e.name.as_slice());
        proof {
            assert(entries.deep_view()[i as int] == entries@[i as int]@);
        }
        if hit {
            proof {
                assert(path_entry_named(ev.name)(entries.deep_view()[i as int]));
                lemma_find_index_at(entries.deep_view(), path_entry_named(ev.name), i as int);
            }
            let ghost old_dv = entries.deep_view();
            entries.set(i, e);
            proof {
                assert(entries.deep_view() =~= old_dv.update(i as int, ev));
            }
            return ;
        }
        proof {
            assert(!path_entry_named(ev.name)(entries.deep_view()[i as int]));
        }
        i = i + 1;
    }
    proof {
        lemma_find_index_none(entries.deep_view(), path_entry_named(ev.name));
    }
    let ghost old_dv = entries.deep_view();
    entries.push(e);
    proof {
        assert(entries.deep_view() =~= old_dv.push(ev));
    }
}

/// Inserts or replaces the position group with this path name, keeping
/// the position of an existing name.
fn upsert_group_exec(groups: &mut Vec<(Vec<u8>, Vec<PositionIndexEntry>)>, gr: (Vec<u8>, Vec<
    PositionIndexEntry,
>))
    ensures
        groups_view(final(groups)@) == spec_upsert_group(
            groups_view(old(groups)@),
            (gr.0@, gr.1.deep_view()),
        ),
{
    let ghost grv = (gr.0@, gr.1.deep_view());
    let n = groups.len();
    let mut i: usize = 0;
    while i < n
        invariant
            0 <= i <= n,
            n == groups@.len(),
            groups@ == old(groups)@,
            forall|j: int| 0 <= j < i ==> !group_named(grv.0)(#[trigger] groups_view(groups@)[j]),
            grv == (gr.0@, gr.1.deep_view()),
        decreases n - i,
    {
        let hit = bytes_eq(groups[i].0.as_slice(), gr.0.as_slice());
        proof {
            assert(groups_view(groups@)[i as int] == (groups@[i as int].0@, groups@[i as int].1.deep_view()));
        }
        if hit {
            proof {
                assert(group_named(grv.0)(groups_view(groups@)[i as int]));
                lemma_find_index_at(groups_view(groups@), group_named(grv.0), i as int);
            }
            let ghost old_gv = groups_view(groups@);
            groups.set(i, gr);
            proof {
                assert(groups_view(groups@) =~= old_gv.update(i as int, grv));
            }
            return ;
        }
        proof {
            assert(!group_named(grv.0)(groups_view(groups@)[i as int]));
        }
        i = i + 1;
    }
    proof {
        lemma_find_index_none(groups_view(groups@), group_named(grv.0));
    }
    let ghost old_gv = groups_view(groups@);
    groups.push(gr);
    proof {
        assert(groups_view(groups@) =~= old_gv.push(grv));
    }
}

/// The total sequence length along a path's steps, saturating at the
/// largest 64-bit value; a step whose segment the graph does not hold
/// contributes zero.
pub(crate) fn path_total_length(graph: &GfaGraph, steps: &Vec<crate::gfa::PathStep>) -> (r: u64)
    ensures
        r == sat64(spec_prefix_len(graph@.segments, steps.deep_view(), steps.deep_view().len() as int)),
{
    let m = steps.len();
    let mut acc: u64 = 0;
    let mut j: usize = 0;
    while j < m
        invariant
            0 <= j <= m,
            m == steps@.len(),
            acc == sat64(spec_prefix_len(graph@.segments, steps.deep_view(), j as int)),
        decreases m - j,
    {
        let step = &steps[j];
        let len64: u64 = match graph.get_segment(step.segment.as_slice()) {
            Some(seg) => seg.sequence.len() as u64,
            None => 0,
        };
        proof {
            assert(steps.deep_view()[j as int] == steps@[j as int]@);
            assert(len64 == spec_step_len(graph@.segments, steps.deep_view()[j as int].segment));
            lemma_prefix_len_nonneg(graph@.segments, steps.deep_view(), j as int);
        }
        acc = if acc > u64::MAX - len64 {
            u64::MAX
        } else {
            acc + len64
        };
        j = j + 1;
    }
    acc
}

impl GfaIndex {
    /// A new empty index for this source file: no sub-index built.
    pub fn new(source_file: &[u8]) -> (r: Self)
        ensures
            r@ == (IndexV {
                source_file: source_file@,
                version: INDEX_VERSION,
                segment_index: None,
                path_index: None,
                position_index: None,
            }),
    {
        GfaIndex {
            source_file: bytes_to_vec(source_file),
            version: INDEX_VERSION,
            segment_index: None,
            path_index: None,
            position_index: None,
        }
    }

    /// Builds the segment index of a graph: one entry per segment with its
    /// sequence length and ordinal position.
    pub fn build_segment_index(graph: &GfaGraph) -> (r: SegmentIndex)
        ensures
            r@ == spec_seg_entries(graph@.segments),
    {
        let n = graph.segments.len();
        let mut entries: Vec<SegmentIndexEntry> = Vec::new();
        let mut i: usize = 0;
        while i < n
            invariant
                0 <= i <= n,
                n == graph.segments@.len(),
                entries.deep_view().len() == i,
                forall|j: int|
                    0 <= j < i ==> entries.deep_view()[j] == spec_seg_entries(graph@.segments)[j],
            decreases n - i,
        {
            let seg = &graph.segments[i];
            let e = SegmentIndexEntry {
                name: bytes_to_vec(seg.name.as_slice()),
                sequence_length: seg.sequence.len(),
                file_offset: i as u64,
            };
            let ghost ev = e@;
            proof {
                assert(graph@.segments[i as int] == graph.segments@[i as int]@);
                assert(ev == spec_seg_entries(graph@.segments)[i as int]);
            }
            let ghost prev = entries.deep_view();
            entries.push(e);
            proof {
                assert(entries.deep_view() =~= prev.push(ev));
            }
            i = i + 1;
        }
        proof {
            assert(entries.deep_view() =~= spec_seg_entries(graph@.segments));
        }
        SegmentIndex { entries }
    }

    /// Builds the path index of a graph: one entry per path name — the
    /// last path of a duplicated name wins — plus every path name in
    /// source order.
    pub fn build_path_index(graph: &GfaGraph) -> (r: PathIndex)
        ensures
            r@ == spec_path_index(graph@),
    {
        let n = graph.paths.len();
        let mut entries: Vec<PathIndexEntry> = Vec::new();
        let mut path_names: Vec<Vec<u8>> = Vec::new();
        proof {
            assert(entries.deep_view() =~= Seq::<PathEntryV>::empty());
        }
        let mut i: usize = 0;
        while i < n
            invariant
                0 <= i <= n,
                n == graph.paths@.len(),
                spec_path_entries_fold(graph@, 0, Seq::empty()) == spec_path_entries_fold(
                    graph@,
                    i as int,
                    entries.deep_view(),
                ),
                path_names.deep_view().len() == i,
                forall|j: int| 0 <= j < i ==> path_names.deep_view()[j] == graph@.paths[j].name,
            decreases n - i,
        {
            let p = &graph.paths[i];
            proof {
                assert(graph@.paths[i as int] == graph.paths@[i as int]@);
            }
            let total = path_total_length(graph, &p.steps);
            let e = PathIndexEntry {
                name: bytes_to_vec(p.name.as_slice()),
                step_count: p.steps.len(),
                total_length: total,
                file_offset: i as u64,
            };
            proof {
                assert(e@ == spec_path_entry(graph@, i as int));
            }
            upsert_path_entry_exec(&mut entries, e);
            let ghost names_prev = path_names.deep_view();
            path_names.push(bytes_to_vec(p.name.as_slice()));
            proof {
                assert(path_names.deep_view() =~~= names_prev.push(graph@.paths[i as int].name));
            }
            i = i + 1;
        }
        proof {
            assert(path_names.deep_view() =~~= Seq::new(
                graph@.paths.len(),
                |i: int| graph@.paths[i].name,
            ));
        }
        PathIndex { entries, path_names }
    }

    /// Builds the position index of a graph: for each path, one half-open
    /// coordinate range per step, each beginning where the previous ended;
    /// a step whose segment the graph does not hold contributes an empty
    /// range at the current coordinate.
    pub fn build_position_index(graph: &GfaGraph) -> (r: PositionIndex)
        ensures
            r@ == spec_position_index(graph@),
    {
        let n = graph.paths.len();
        let mut groups: Vec<(Vec<u8>, Vec<PositionIndexEntry>)> = Vec::new();
        proof {
            assert(groups_view(groups@) =~= Seq::<(Seq<u8>, Seq<PosEntryV>)>::empty());
        }
        let mut i: usize = 0;
        while i < n
            invariant
                0 <= i <= n,
                n == graph.paths@.len(),
                spec_pos_groups_fold(graph@, 0, Seq::empty()) == spec_pos_groups_fold(
                    graph@,
                    i as int,
                    groups_view(groups@),
                ),
            decreases n - i,
        {
            let p = &graph.paths[i];
            proof {
                assert(graph@.paths[i as int] == graph.paths@[i as int]@);
            }
            let m = p.steps.len();
            let mut pes: Vec<PositionIndexEntry> = Vec::new();
            let mut position: u64 = 0;
            let mut j: usize = 0;
            while j < m
                invariant
                    0 <= j <= m,
                    m == p.steps@.len(),
                    position == sat64(spec_prefix_len(graph@.segments, p@.steps, j as int)),
                    pes.deep_view().len() == j,
                    forall|k: int|
                        0 <= k < j ==> pes.deep_view()[k] == spec_pos_entries(
                            graph@.segments,
                            p@.name,
                            p@.steps,
                        )[k],
                decreases m - j,
            {
                let step = &p.steps[j];
                let len64: u64 = match graph.get_segment(step.segment.as_slice()) {
                    Some(seg) => seg.sequence.len() as u64,
                    None => 0,
                };
                proof {
                    assert(p@.steps[j as int] == p.steps@[j as int]@);
                    assert(len64 == spec_step_len(graph@.segments, p@.steps[j as int].segment));
                    lemma_prefix_len_nonneg(graph@.segments, p@.steps, j as int);
                }
                let end = if position > u64::MAX - len64 {
                    u64::MAX
                } else {
                    position + len64
                };
                let e = PositionIndexEntry {
                    path_name: bytes_to_vec(p.name.as_slice()),
                    start: position,
                    end,
                    segment_name: bytes_to_vec(step.segment.as_slice()),
                    step_index: j,
                };
                let ghost ev = e@;
                proof {
                    assert(ev == spec_pos_entries(graph@.segments, p@.name, p@.steps)[j as int]);
                }
                let ghost prev = pes.deep_view();
                pes.push(e);
                proof {
                    assert(pes.deep_view() =~= prev.push(ev));
                }
                position = end;
                j = j + 1;
            }
            proof {
                assert(pes.deep_view() =~= spec_pos_entries(graph@.segments, p@.name, p@.steps));
            }
            let gr = (bytes_to_vec(p.name.as_slice()), pes);
            upsert_group_exec(&mut groups, gr);
            i = i + 1;
        }
        PositionIndex { entries: groups }
    }

    /// Builds the requested index variant from a graph.
    pub fn build(graph: &GfaGraph, source_file: &[u8], index_type: IndexType) -> (r: GfaIndex)
        ensures
            r@ == spec_build(graph@, source_file@, index_type),
    {
        let mut index = GfaIndex::new(source_file);
        match index_type {
            IndexType::Segment => {
                index.segment_index = Some(Self::build_segment_index(graph));
            },
            IndexType::Path => {
                index.path_index = Some(Self::build_path_index(graph));
            },
            IndexType::Position => {
                index.position_index = Some(Self::build_position_index(graph));
            },
            IndexType::Full => {
                index.segment_index = Some(Self::build_segment_index(graph));
                index.path_index = Some(Self::build_path_index(graph));
                index.position_index = Some(Self::build_position_index(graph));
            },
        }
        index
    }

    /// Looks up a segment's entry by name; nothing is found when the
    /// segment index was not built.
    pub fn get_segment_info(&self, name: &[u8]) -> (r: Option<&SegmentIndexEntry>)
        ensures
            match self@.segment_index {
                None => r is None,
                Some(entries) => ({
                    let i = find_index(entries, seg_entry_named(name@));
                    match r {
                        Some(e) => 0 <= i < entries.len() && e@ == entries[i],
                        None => i < 0,
                    }
                }),
            },
    {
        match &self.segment_index {
            None => None,
            Some(si) => {
                let n = si.entries.len();
                let mut i: usize = 0;
                while i < n
                    invariant
                        0 <= i <= n,
                        n == si.entries@.len(),
                        self@.segment_index == Some(si@),
                        forall|j: int|
                            0 <= j < i ==> !seg_entry_named(name@)(#[trigger] si@[j]),
                    decreases n - i,
                {
                    let hit = bytes_eq(si.entries[i].name.as_slice(), name);
                    proof {
                        assert(si@[i as int] == si.entries@[i as int]@);
                    }
                    if hit {
                        proof {
                            assert(seg_entry_named(name@)(si@[i as int]));
                            lemma_find_index_at(si@, seg_entry_named(name@), i as int);
                        }
                        return Some(&si.entries[i]);
                    }
                    proof {
                        assert(!seg_entry_named(name@)(si@[i as int]));
                    }
                    i = i + 1;
                }
                proof {
                    lemma_find_index_none(si@, seg_entry_named(name@));
                }
                None
            },
        }
    }

    /// Looks up a path's entry by name; nothing is found when the path
    /// index was not built.
    pub fn get_path_info(&self, name: &[u8]) -> (r: Option<&PathIndexEntry>)
        ensures
            match self@.path_index {
                None => r is None,
                Some(pi) => ({
                    let i = find_index(pi.entries, path_entry_named(name@));
                    match r {
                        Some(e) => 0 <= i < pi.entries.len() && e@ == pi.entries[i],
                        None => i < 0,
                    }
                }),
            },
    {
        match &self.path_index {
            None => None,
            Some(pi) => {
                let n = pi.entries.len();
                let mut i: usize = 0;
                while i < n
                    invariant
                        0 <= i <= n,
                        n == pi.entries@.len(),
                        self@.path_index == Some(pi@),
                        forall|j: int|
                            0 <= j < i ==> !path_entry_named(name@)(
                                #[trigger] pi.entries.deep_view()[j],
                            ),
                    decreases n - i,
                {
                    let hit = bytes_eq(pi.entries[i].name.as_slice(), name);
                    proof {
                        assert(pi.entries.deep_view()[i as int] == pi.entries@[i as int]@);
                    }
                    if hit {
                        proof {
                            assert(path_entry_named(name@)(pi.entries.deep_view()[i as int]));
                            lemma_find_index_at(
                                pi.entries.deep_view(),
                                path_entry_named(name@),
                                i as int,
                            );
                        }
                        return Some(&pi.entries[i]);
                    }
                    proof {
                        assert(!path_entry_named(name@)(pi.entries.deep_view()[i as int]));
                    }
                    i = i + 1;
                }
                proof {
                    lemma_find_index_none(pi.entries.deep_view(), path_entry_named(name@));
                }
                None
            },
        }
    }

    /// Finds the position entry whose half-open range contains the
    /// coordinate, in the named path; nothing is found when the position
    /// index was not built, the path is unknown to it, or the coordinate
    /// lies at or past the end of the path.
    pub fn query_position(&self, path_name: &[u8], position: u64) -> (r: Option<
        &PositionIndexEntry,
    >)
        ensures
            match self@.position_index {
                None => r is None,
                Some(groups) => ({
                    let gi = find_index(groups, group_named(path_name@));
                    if gi < 0 {
                        r is None
                    } else {
                        ({
                            let k = find_index(groups[gi].1, pos_containing(position));
                            match r {
                                Some(e) => 0 <= k < groups[gi].1.len() && e@ == groups[gi].1[k],
                                None => k < 0,
                            }
                        })
                    }
                }),
            },
    {
        match &self.position_index {
            None => None,
            Some(pi) => {
                let n = pi.entries.len();
                let mut i: usize = 0;
                while i < n
                    invariant
                        0 <= i <= n,
                        n == pi.entries@.len(),
                        self@.position_index == Some(groups_view(pi.entries@)),
                        forall|j: int|
                            0 <= j < i ==> !group_named(path_name@)(
                                #[trigger] groups_view(pi.entries@)[j],
                            ),
                    decreases n - i,
                {
                    let hit = bytes_eq(pi.entries[i].0.as_slice(), path_name);
                    proof {
                        assert(groups_view(pi.entries@)[i as int] == (
                            pi.entries@[i as int].0@,
                            pi.entries@[i as int].1.deep_view(),
                        ));
                    }
                    if hit {
                        proof {
                            assert(group_named(path_name@)(groups_view(pi.entries@)[i as int]));
                            lemma_find_index_at(
                                groups_view(pi.entries@),
                                group_named(path_name@),
                                i as int,
                            );
                        }
                        let es = &pi.entries[i].1;
                        proof {
                            assert(es.deep_view() == groups_view(pi.entries@)[i as int].1);
                        }
                        let m = es.len();
                        let mut k: usize = 0;
                        while k < m
                            invariant
                                0 <= k <= m,
                                m == es@.len(),
                                i < pi.entries@.len(),
                                self@.position_index == Some(groups_view(pi.entries@)),
                                find_index(groups_view(pi.entries@), group_named(path_name@))
                                    == i as int,
                                es.deep_view() == groups_view(pi.entries@)[i as int].1,
                                forall|j: int|
                                    0 <= j < k ==> !pos_containing(position)(
                                        #[trigger] es.deep_view()[j],
                                    ),
                            decreases m - k,
                        {
                            let e = &es[k];
                            proof {
                                assert(es.deep_view()[k as int] == es@[k as int]@);
                            }
                            if position >= e.start && position < e.end {
                                proof {
                                    assert(pos_containing(position)(es.deep_view()[k as int]));
                                    lemma_find_index_at(
                                        es.deep_view(),
                                        pos_containing(position),
                                        k as int,
                                    );
                                }
                                return Some(&es[k]);
                            }
                            proof {
                                assert(!pos_containing(position)(es.deep_view()[k as int]));
                            }
                            k = k + 1;
                        }
                        proof {
                            lemma_find_index_none(es.deep_view(), pos_containing(position));
                        }
                        return None;
                    }
                    proof {
                        assert(!group_named(path_name@)(groups_view(pi.entries@)[i as int]));
                    }
                    i = i + 1;
                }
                proof {
                    lemma_find_index_none(groups_view(pi.entries@), group_named(path_name@));
                }
                None
            },
        }
    }

    /// The names of all indexed segments, in index order; empty when the
    /// segment index was not built.
    pub fn list_segments(&self) -> (r: Vec<Vec<u8>>)
        ensures
            match self@.segment_index {
                None => r.deep_view() == Seq::<Seq<u8>>::empty(),
                Some(entries) => r.deep_view() == Seq::new(entries.len(), |i: int| entries[i].name),
            },
    {
        match &self.segment_index {
            None => {
                let r: Vec<Vec<u8>> = Vec::new();
                proof {
                    assert(r.deep_view() =~= Seq::<Seq<u8>>::empty());
                }
                r
            },
            Some(si) => {
                let n = si.entries.len();
                let mut r: Vec<Vec<u8>> = Vec::new();
                let mut i: usize = 0;
                while i < n
                    invariant
                        0 <= i <= n,
                        n == si.entries@.len(),
                        r.deep_view().len() == i,
                        forall|j: int| 0 <= j < i ==> r.deep_view()[j] == si@[j].name,
                    decreases n - i,
                {
                    proof {
                        assert(si@[i as int] == si.entries@[i as int]@);
                    }
                    let ghost prev = r.deep_view();
                    r.push(bytes_to_vec(si.entries[i].name.as_slice()));
                    proof {
                        assert(r.deep_view() =~~= prev.push(si@[i as int].name));
                    }
                    i = i + 1;
                }
                proof {
                    assert(r.deep_view() =~~= Seq::new(si@.len(), |i: int| si@[i].name));
                }
                r
            },
        }
    }

    /// The names of all indexed paths, in source order, duplicates kept;
    /// empty when the path index was not built.
    pub fn list_paths(&self) -> (r: Vec<Vec<u8>>)
        ensures
            match self@.path_index {
                None => r.deep_view() == Seq::<Seq<u8>>::empty(),
                Some(pi) => r.deep_view() == pi.path_names,
            },
    {
        match &self.path_index {
            None => {
                let r: Vec<Vec<u8>> = Vec::new();
                proof {
                    assert(r.deep_view() =~= Seq::<Seq<u8>>::empty());
                }
                r
            },
            Some(pi) => {
                let n = pi.path_names.len();
                let mut r: Vec<Vec<u8>> = Vec::new();
                let mut i: usize = 0;
                while i < n
                    invariant
                        0 <= i <= n,
                        n == pi.path_names@.len(),
                        r.deep_view().len() == i,
                        forall|j: int|
                            0 <= j < i ==> r.deep_view()[j] == pi.path_names.deep_view()[j],
                    decreases n - i,
                {
                    let ghost prev = r.deep_view();
                    r.push(bytes_to_vec(pi.path_names[i].as_slice()));
                    proof {
                        assert(r.deep_view() =~~= prev.push(pi.path_names.deep_view()[i as int]));
                    }
                    i = i + 1;
                }
                proof {
                    assert(r.deep_view() =~~= pi.path_names.deep_view());
                }
                r
            },
        }
    }
}

/// A random-access reader: a loaded index together with the path of the
/// source text it was built from; the source file itself stays unopened.
pub struct IndexedReader {
    /// The index answering all queries.
    pub index: GfaIndex,
    /// The source path, kept for provenance only.
    pub source_path: Vec<u8>,
}

impl IndexedReader {
    /// Wraps a loaded index and the source path it belongs to.
    pub fn new(index: GfaIndex, source_path: &[u8]) -> (r: Self)
        ensures
            r.index@ == index@,
            r.source_path@ == source_path@,
    {
        IndexedReader { index, source_path: bytes_to_vec(source_path) }
    }

    /// Looks up a segment's entry by name.
    pub fn get_segment(&self, name: &[u8]) -> (r: Option<&SegmentIndexEntry>)
        ensures
            match self.index@.segment_index {
                None => r is None,
                Some(entries) => ({
                    let i = find_index(entries, seg_entry_named(name@));
                    match r {
                        Some(e) => 0 <= i < entries.len() && e@ == entries[i],
                        None => i < 0,
                    }
                }),
            },
    {
        self.index.get_segment_info(name)
    }

    /// Looks up a path's entry by name.
    pub fn get_path(&self, name: &[u8]) -> (r: Option<&PathIndexEntry>)
        ensures
            match self.index@.path_index {
                None => r is None,
                Some(pi) => ({
                    let i = find_index(pi.entries, path_entry_named(name@));
                    match r {
                        Some(e) => 0 <= i < pi.entries.len() && e@ == pi.entries[i],
                        None => i < 0,
                    }
                }),
            },
    {
        self.index.get_path_info(name)
    }

    /// Finds the position entry containing a coordinate in a path.
    pub fn query_position(&self, path: &[u8], position: u64) -> (r: Option<&PositionIndexEntry>)
        ensures
            match self.index@.position_index {
                None => r is None,
                Some(groups) => ({
                    let gi = find_index(groups, group_named(path@));
                    if gi < 0 {
                        r is None
                    } else {
                        ({
                            let k = find_index(groups[gi].1, pos_containing(position));
                            match r {
                                Some(e) => 0 <= k < groups[gi].1.len() && e@ == groups[gi].1[k],
                                None => k < 0,
                            }
                        })
                    }
                }),
            },
    {
        self.index.query_position(path, position)
    }

    /// The names of all indexed segments.
    pub fn list_segments(&self) -> (r: Vec<Vec<u8>>)
        ensures
            match self.index@.segment_index {
                None => r.deep_view() == Seq::<Seq<u8>>::empty(),
                Some(entries) => r.deep_view() == Seq::new(entries.len(), |i: int| entries[i].name),
            },
    {
        self.index.list_segments()
    }

    /// The names of all indexed paths.
    pub fn list_paths(&self) -> (r: Vec<Vec<u8>>)
        ensures
            match self.index@.path_index {
                None => r.deep_view() == Seq::<Seq<u8>>::empty(),
                Some(pi) => r.deep_view() == pi.path_names,
            },
    {
        self.index.list_paths()
    }
}


// ------------------------------------------------------------------
// Position-query coverage
// ------------------------------------------------------------------
pub proof fn lemma_prefix_len_mono(segs: Seq<SegmentV>, steps: Seq<StepV>, a: int, b: int)
    requires
        a <= b,
    ensures
        spec_prefix_len(segs, steps, a) <= spec_prefix_len(segs, steps, b),
    decreases b - a,
{
    if a < b {
        lemma_prefix_len_mono(segs, steps, a, b - 1);
        let i = find_index(segs, seg_named(steps[b - 1].segment));
    }
}

/// Every coordinate below the prefix total of the first `n` steps falls
/// between two adjacent prefix sums.
proof fn lemma_locate(segs: Seq<SegmentV>, steps: Seq<StepV>, n: int, pos: int)
    requires
        0 <= n <= steps.len(),
        0 <= pos < spec_prefix_len(segs, steps, n),
    ensures
        exists|j: int|
            0 <= j < n && spec_prefix_len(segs, steps, j) <= pos < #[trigger] spec_prefix_len(
                segs,
                steps,
                j + 1,
            ),
    decreases n,
{
    if n > 0 {
        if pos < spec_prefix_len(segs, steps, n - 1) {
            lemma_locate(segs, steps, n - 1, pos);
        } else {
            let j = n - 1;
            assert(spec_prefix_len(segs, steps, j) <= pos < spec_prefix_len(segs, steps, j + 1));
        }
    }
}

/// Law: the position entries of a path, each of whose steps names a
/// segment the graph holds, exactly tile the coordinate range from zero
/// to the path's total length: entry `j` spans from the sum of the step
/// lengths before it to that sum plus its own length, each entry begins
/// where the previous ended, and any coordinate below the total lies in
/// exactly one entry — the one the position query finds — while any
/// coordinate at or past the total lies in none.  The bound on the total
/// holds of every graph a machine can hold.
pub proof fn lemma_position_entries_tile(segs: Seq<SegmentV>, pname: Seq<u8>, steps: Seq<StepV>)
    requires
        forall|j: int|
            0 <= j < steps.len() ==> 0 <= find_index(
                segs,
                seg_named((#[trigger] steps[j]).segment),
            ) < segs.len(),
        spec_prefix_len(segs, steps, steps.len() as int) <= u64::MAX,
    ensures
        ({
            let entries = spec_pos_entries(segs, pname, steps);
            let total = spec_prefix_len(segs, steps, steps.len() as int);
            &&& entries.len() == steps.len()
            &&& forall|j: int|
                0 <= j < steps.len() ==> (#[trigger] entries[j]).start == spec_prefix_len(
                    segs,
                    steps,
                    j,
                ) && entries[j].end == spec_prefix_len(segs, steps, j + 1)
            &&& forall|j: int|
                1 <= j < steps.len() ==> (#[trigger] entries[j]).start == entries[j - 1].end
            &&& (steps.len() > 0 ==> entries[0].start == 0 && entries[steps.len() - 1].end
                == total)
            &&& forall|pos: u64|
                pos < total ==> ({
                    let k = find_index(entries, #[trigger] pos_containing(pos));
                    &&& 0 <= k < entries.len()
                    &&& pos_containing(pos)(entries[k])
                    &&& forall|j: int|
                        0 <= j < entries.len() && j != k ==> !pos_containing(pos)(
                            #[trigger] entries[j],
                        )
                })
            &&& forall|pos: u64|
                pos >= total ==> find_index(entries, #[trigger] pos_containing(pos)) == -1
        }),
{
    let entries = spec_pos_entries(segs, pname, steps);
    let total = spec_prefix_len(segs, steps, steps.len() as int);
    lemma_prefix_len_nonneg(segs, steps, steps.len() as int);
    assert forall|j: int|
        0 <= j < steps.len() implies (#[trigger] entries[j]).start == spec_prefix_len(
        segs,
        steps,
        j,
    ) && entries[j].end == spec_prefix_len(segs, steps, j + 1) by {
        lemma_prefix_len_nonneg(segs, steps, j);
        lemma_prefix_len_mono(segs, steps, j, steps.len() as int);
        lemma_prefix_len_mono(segs, steps, j + 1, steps.len() as int);
        lemma_prefix_len_nonneg(segs, steps, j + 1);
    }
    assert forall|pos: u64| pos < total implies ({
        let k = find_index(entries, #[trigger] pos_containing(pos));
        &&& 0 <= k < entries.len()
        &&& pos_containing(pos)(entries[k])
        &&& forall|j: int|
            0 <= j < entries.len() && j != k ==> !pos_containing(pos)(#[trigger] entries[j])
    }) by {
        lemma_locate(segs, steps, steps.len() as int, pos as int);
        let posi = pos as int;
        let w = choose|j: int|
            0 <= j < steps.len() && spec_prefix_len(segs, steps, j) <= posi
                < #[trigger] spec_prefix_len(segs, steps, j + 1);
        assert(pos_containing(pos)(entries[w]));
        lemma_find_index(entries, pos_containing(pos));
        let k = find_index(entries, pos_containing(pos));
        assert(0 <= k < entries.len());
        assert forall|j: int|
            0 <= j < entries.len() && j != k implies !pos_containing(pos)(
            #[trigger] entries[j],
        ) by {
            if pos_containing(pos)(entries[j]) {
                if j < k {
                    assert(false);
                } else {
                    lemma_prefix_len_mono(segs, steps, k + 1, j);
                }
            }
        }
    }
    assert forall|pos: u64|
        pos >= total implies find_index(entries, #[trigger] pos_containing(pos)) == -1 by {
        assert forall|j: int| 0 <= j < entries.len() implies !pos_containing(pos)(
            #[trigger] entries[j],
        ) by {
            lemma_prefix_len_mono(segs, steps, j + 1, steps.len() as int);
        }
        lemma_find_index_none(entries, pos_containing(pos));
    }
}


// ------------------------------------------------------------------
// Summary
// ------------------------------------------------------------------
/// The decimal digits of a non-negative integer, most significant first.
pub open spec fn dec_digits(n: int) -> Seq<u8>
    decreases n,
{
    if n < 10 {
        seq![(48 + n) as u8]
    } else {
        dec_digits(n / 10).push((48 + n % 10) as u8)
    }
}

/// The decimal digits of a 64-bit integer, as ASCII bytes.
fn u64_to_dec(n: u64) -> (r: Vec<u8>)
    ensures
        r@ == dec_digits(n as int),
    decreases n,
{
    if n < 10 {
        let mut v: Vec<u8> = Vec::new();
        v.push(48 + (n as u8));
        proof {
            assert(v@ =~= dec_digits(n as int));
        }
        v
    } else {
        let mut v = u64_to_dec(n / 10);
        v.push(48 + ((n % 10) as u8));
        proof {
            assert(v@ =~= dec_digits(n as int));
        }
        v
    }
}

/// The characters that a run of ASCII bytes denotes.
pub open spec fn ascii_view(b: Seq<u8>) -> Seq<char> {
    Seq::new(b.len(), |i: int| b[i] as char)
}

/// Relies on `String::from_utf8_lossy`: bytes that are valid UTF-8 come
/// back unchanged, so ASCII bytes come back as the same characters.
#[verifier::external_body]
fn ascii_to_string(b: &Vec<u8>) -> (r: String)
    ensures
        (forall|i: int| 0 <= i < b@.len() ==> b@[i] < 128) ==> r@ == ascii_view(b@),
{
    String::from_utf8_lossy(b.as_slice()).into_owned()
}

impl GfaIndex {
    /// A human-readable summary: the provenance and version, then each
    /// sub-index with its entry count or the note that it was not built.
    pub fn summary(&self) -> String {
        let mut out = String::new();
        out.append("=== Index Summary ===\n\n");
        out.append("Source file: ");
        out.append(ascii_to_string(&self.source_file).as_str());
        out.append("\nVersion: ");
        out.append(ascii_to_string(&u64_to_dec(self.version as u64)).as_str());
        out.append("\n\n");
        match &self.segment_index {
            Some(si) => {
                out.append("Segment index: ");
                out.append(ascii_to_string(&u64_to_dec(si.entries.len() as u64)).as_str());
                out.append(" entries\n");
            },
            None => {
                out.append("Segment index: not built\n");
            },
        }
        match &self.path_index {
            Some(pi) => {
                out.append("Path index: ");
                out.append(ascii_to_string(&u64_to_dec(pi.entries.len() as u64)).as_str());
                out.append(" entries\n");
            },
            None => {
                out.append("Path index: not built\n");
            },
        }
        match &self.position_index {
            Some(pi) => {
                let n = pi.entries.len();
                let mut total: u64 = 0;
                let mut i: usize = 0;
                while i < n
                    invariant
                        0 <= i <= n,
                        n == pi.entries@.len(),
                    decreases n - i,
                {
                    let m = pi.entries[i].1.len() as u64;
                    total = if total > u64::MAX - m {
                        u64::MAX
                    } else {
                        total + m
                    };
                    i = i + 1;
                }
                out.append("Position index: ");
                out.append(ascii_to_string(&u64_to_dec(total)).as_str());
                out.append(" entries across ");
                out.append(ascii_to_string(&u64_to_dec(n as u64)).as_str());
                out.append(" paths\n");
            },
            None => {
                out.append("Position index: not built\n");
            },
        }
        out
    }
}

} // verus!
