//! The in-memory graph model and the line-oriented parser for the
//! tab-delimited graph-fragment text format.
//!
//! A graph holds named segments (with their sequences and tags), oriented
//! links between segment names, and paths of oriented steps.  Parsing is
//! strictly line by line; the whole behaviour of the parser is given by the
//! specification model `spec_parse`, and the executable parser is proved
//! equal to it.

use crate::error::PgToolsError;
use crate::text::{
    append_bytes, bytes_eq, bytes_to_vec, find_byte, find_byte_exec, find_index, lemma_find_byte,
    lemma_find_index, lemma_find_index_at, lemma_find_index_none, split_bytes, split_bytes_exec,
    sub_bytes, trim_bytes, trimmed,
};
use vstd::pervasive::VecAdditionalExecFns;
use vstd::prelude::*;

verus! {

/// Orientation of a segment within a link or a path step.
#[derive(Debug, Clone, Copy, PartialEq, Eq, Structural)]
pub enum Orientation {
    Forward,
    Reverse,
}

/// The orientation denoted by a byte: `+` is forward, `-` is reverse, and
/// nothing else is valid.
pub open spec fn spec_orientation(b: u8) -> Option<Orientation> {
    if b == 43 {
        Some(Orientation::Forward)
    } else if b == 45 {
        Some(Orientation::Reverse)
    } else {
        None
    }
}

impl Orientation {
    /// Parses an orientation byte, `+` or `-`.
    pub fn from_char(c: u8) -> (r: Result<Orientation, PgToolsError>)
        ensures
            spec_orientation(c) matches Some(o) ==> r == Ok::<Orientation, PgToolsError>(o),
            spec_orientation(c) is None ==> (r matches Err(e) && err_view(e) == (
                ErrV::Invalid { msg: "Invalid orientation"@ }
            )),
    {
        if c == 43 {
            Ok(Orientation::Forward)
        } else if c == 45 {
            Ok(Orientation::Reverse)
        } else {
            Err(PgToolsError::InvalidInput("Invalid orientation".to_owned()))
        }
    }

    /// The character this orientation is written as.
    pub fn to_string(&self) -> (r: String)
        ensures
            *self is Forward ==> r@ == "+"@,
            *self is Reverse ==> r@ == "-"@,
    {
        match self {
            Orientation::Forward => "+".to_owned(),
            Orientation::Reverse => "-".to_owned(),
        }
    }
}

/// A segment (node): a named sequence fragment with optional tags.
#[derive(Debug, Clone)]
pub struct Segment {
    /// Segment name, the unique key within a graph.
    pub name: Vec<u8>,
    /// Sequence data; the single byte `*` means the sequence is omitted.
    pub sequence: Vec<u8>,
    /// Optional tags, keyed by the text before the first colon.
    pub tags: Vec<(Vec<u8>, Vec<u8>)>,
}

/// Specification model of a [`Segment`].
pub struct SegmentV {
    pub name: Seq<u8>,
    pub sequence: Seq<u8>,
    pub tags: Seq<(Seq<u8>, Seq<u8>)>,
}

/// The view of a list of key/value byte-string pairs.
pub open spec fn pairs_view(v: Seq<(Vec<u8>, Vec<u8>)>) -> Seq<(Seq<u8>, Seq<u8>)> {
    Seq::new(v.len(), |i: int| (v[i].0@, v[i].1@))
}

impl View for Segment {
    type V = SegmentV;

    open spec fn view(&self) -> SegmentV {
        SegmentV { name: self.name@, sequence: self.sequence@, tags: pairs_view(self.tags@) }
    }
}

impl DeepView for Segment {
    type V = SegmentV;

    open spec fn deep_view(&self) -> SegmentV {
        self.view()
    }
}

/// A link (edge) between two oriented segment ends, with an overlap
/// descriptor that this crate keeps opaque.
#[derive(Debug, Clone)]
pub struct Link {
    pub from_segment: Vec<u8>,
    pub from_orient: Orientation,
    pub to_segment: Vec<u8>,
    pub to_orient: Orientation,
    pub overlap: Vec<u8>,
}

/// Specification model of a [`Link`].
pub struct LinkV {
    pub from_segment: Seq<u8>,
    pub from_orient: Orientation,
    pub to_segment: Seq<u8>,
    pub to_orient: Orientation,
    pub overlap: Seq<u8>,
}

impl View for Link {
    type V = LinkV;

    open spec fn view(&self) -> LinkV {
        LinkV {
            from_segment: self.from_segment@,
            from_orient: self.from_orient,
            to_segment: self.to_segment@,
            to_orient: self.to_orient,
            overlap: self.overlap@,
        }
    }
}

impl DeepView for Link {
    type V = LinkV;

    open spec fn deep_view(&self) -> LinkV {
        self.view()
    }
}

/// One oriented step of a path.
#[derive(Debug, Clone)]
pub struct PathStep {
    pub segment: Vec<u8>,
    pub orientation: Orientation,
}

/// Specification model of a [`PathStep`].
pub struct StepV {
    pub segment: Seq<u8>,
    pub orientation: Orientation,
}

impl View for PathStep {
    type V = StepV;

    open spec fn view(&self) -> StepV {
        StepV { segment: self.segment@, orientation: self.orientation }
    }
}

impl DeepView for PathStep {
    type V = StepV;

    open spec fn deep_view(&self) -> StepV {
        self.view()
    }
}

/// A named, ordered traversal of oriented segments.
#[derive(Debug, Clone)]
pub struct GfaPath {
    pub name: Vec<u8>,
    pub steps: Vec<PathStep>,
    /// Overlap descriptors, one per adjacent step pair, or absent.
    pub overlaps: Option<Vec<Vec<u8>>>,
}

/// Specification model of a [`GfaPath`].
pub struct GfaPathV {
    pub name: Seq<u8>,
    pub steps: Seq<StepV>,
    pub overlaps: Option<Seq<Seq<u8>>>,
}

impl View for GfaPath {
    type V = GfaPathV;

    open spec fn view(&self) -> GfaPathV {
        GfaPathV {
            name: self.name@,
            steps: self.steps.deep_view(),
            overlaps: self.overlaps.deep_view(),
        }
    }
}

impl DeepView for GfaPath {
    type V = GfaPathV;

    open spec fn deep_view(&self) -> GfaPathV {
        self.view()
    }
}

/// Header information: a version string and a tag set.
#[derive(Debug, Clone)]
pub struct Header {
    pub version: Option<Vec<u8>>,
    pub tags: Vec<(Vec<u8>, Vec<u8>)>,
}

/// Specification model of a [`Header`].
pub struct HeaderV {
    pub version: Option<Seq<u8>>,
    pub tags: Seq<(Seq<u8>, Seq<u8>)>,
}

impl View for Header {
    type V = HeaderV;

    open spec fn view(&self) -> HeaderV {
        HeaderV {
            version: (match self.version {
                Some(v) => Some(v@),
                None => None,
            }),
            tags: pairs_view(self.tags@),
        }
    }
}

pub open spec fn empty_header() -> HeaderV {
    HeaderV { version: None, tags: Seq::empty() }
}

impl Default for Header {
    /// An empty header: no version, no tags.
    fn default() -> (r: Self)
        ensures
            r@ == empty_header(),
    {
        let r = Header { version: None, tags: Vec::new() };
        proof {
            assert(r@.tags =~= empty_header().tags);
        }
        r
    }
}

/// The complete graph: one header, the segments keyed by name (no duplicate
/// names; the last occurrence of a name wins), and the links and paths in
/// source order.
#[derive(Debug, Clone)]
pub struct GfaGraph {
    pub header: Header,
    pub segments: Vec<Segment>,
    pub links: Vec<Link>,
    pub paths: Vec<GfaPath>,
}

/// Specification model of a [`GfaGraph`].
pub struct GraphV {
    pub header: HeaderV,
    pub segments: Seq<SegmentV>,
    pub links: Seq<LinkV>,
    pub paths: Seq<GfaPathV>,
}

impl View for GfaGraph {
    type V = GraphV;

    open spec fn view(&self) -> GraphV {
        GraphV {
            header: self.header@,
            segments: self.segments.deep_view(),
            links: self.links.deep_view(),
            paths: self.paths.deep_view(),
        }
    }
}

pub open spec fn empty_graph() -> GraphV {
    GraphV {
        header: empty_header(),
        segments: Seq::empty(),
        links: Seq::empty(),
        paths: Seq::empty(),
    }
}

/// The predicate "this segment bears the name `name`".
pub open spec fn seg_named(name: Seq<u8>) -> spec_fn(SegmentV) -> bool {
    |s: SegmentV| s.name == name
}

/// No two segments share a name.
pub open spec fn seg_names_unique(segs: Seq<SegmentV>) -> bool {
    forall|i: int, j: int|
        0 <= i < j < segs.len() ==> (#[trigger] segs[i]).name != (#[trigger] segs[j]).name
}

impl Default for GfaGraph {
    /// An empty graph.
    fn default() -> (r: Self)
        ensures
            r@ == empty_graph(),
    {
        let r = GfaGraph {
            header: Header::default(),
            segments: Vec::new(),
            links: Vec::new(),
            paths: Vec::new(),
        };
        proof {
            assert(r@.segments =~= empty_graph().segments);
            assert(r@.links =~= empty_graph().links);
            assert(r@.paths =~= empty_graph().paths);
        }
        r
    }
}

impl GfaGraph {
    /// Creates a new empty graph.
    pub fn new() -> (r: Self)
        ensures
            r@ == empty_graph(),
    {
        Self::default()
    }

    /// Whether the graph satisfies its invariant: segment names are unique.
    pub open spec fn wf(self) -> bool {
        seg_names_unique(self@.segments)
    }

    /// Looks up the segment with the given name.
    pub fn get_segment(&self, name: &[u8]) -> (r: Option<&Segment>)
        ensures
            ({
                let i = find_index(self@.segments, seg_named(name@));
                match r {
                    Some(s) => 0 <= i < self@.segments.len() && s@ == self@.segments[i],
                    None => i < 0,
                }
            }),
    {
        let n = self.segments.len();
        let mut i: usize = 0;
        while i < n
            invariant
                0 <= i <= n,
                n == self@.segments.len(),
                forall|j: int| 0 <= j < i ==> !seg_named(name@)(#[trigger] self@.segments[j]),
            decreases n - i,
        {
            let seg_i = &self.segments[i];
            let hit = bytes_eq(seg_i.name.as_slice(), name);
            proof {
                assert(seg_i@ == self.segments@[i as int]@);
                assert(self@.segments[i as int] == self.segments@[i as int]@);
            }
            if hit {
                proof {
                    assert(seg_named(name@)(self@.segments[i as int]));
                    lemma_find_index_at(self@.segments, seg_named(name@), i as int);
                }
                return Some(&self.segments[i]);
            }
            proof {
                assert(!seg_named(name@)(self@.segments[i as int]));
            }
            i = i + 1;
        }
        proof {
            lemma_find_index_none(self@.segments, seg_named(name@));
        }
        None
    }

    /// The number of segments.
    pub fn segment_count(&self) -> (r: usize)
        ensures
            r == self@.segments.len(),
    {
        self.segments.len()
    }

    /// The number of links.
    pub fn link_count(&self) -> (r: usize)
        ensures
            r == self@.links.len(),
    {
        self.links.len()
    }

    /// The number of paths.
    pub fn path_count(&self) -> (r: usize)
        ensures
            r == self@.paths.len(),
    {
        self.paths.len()
    }
}

/// The length a sequence contributes to the total: the literal `*`
/// placeholder, meaning the sequence was omitted, contributes zero.
pub open spec fn spec_counted_len(sequence: Seq<u8>) -> int {
    if sequence == seq![42u8] {
        0
    } else {
        sequence.len() as int
    }
}

/// The sum of the counted sequence lengths of all segments, as a
/// mathematical integer.
pub open spec fn spec_total_seq_len(segs: Seq<SegmentV>) -> int
    decreases segs.len(),
{
    if segs.len() == 0 {
        0
    } else {
        spec_total_seq_len(segs.drop_last()) + spec_counted_len(segs.last().sequence)
    }
}

/// Clamps a non-negative integer into `u64`.
pub open spec fn sat64(x: int) -> u64 {
    if x > u64::MAX {
        u64::MAX
    } else {
        x as u64
    }
}

pub proof fn lemma_total_seq_len_nonneg(segs: Seq<SegmentV>)
    ensures
        spec_total_seq_len(segs) >= 0,
    decreases segs.len(),
{
    if segs.len() > 0 {
        lemma_total_seq_len_nonneg(segs.drop_last());
    }
}

impl GfaGraph {
    /// The total sequence length over all segments — the `*` placeholder
    /// contributing zero — saturating at the largest 64-bit value (which
    /// no in-memory graph can reach).
    pub fn total_sequence_length(&self) -> (r: u64)
        ensures
            r == sat64(spec_total_seq_len(self@.segments)),
    {
        let n = self.segments.len();
        let mut acc: u64 = 0;
        let mut i: usize = 0;
        proof {
            assert(self@.segments.subrange(0, 0) =~= Seq::<SegmentV>::empty());
        }
        let mut done: Ghost<Seq<SegmentV>> = Ghost(self@.segments.subrange(0, 0));
        while i < n
            invariant
                0 <= i <= n,
                n == self@.segments.len(),
                self@.segments == self.segments.deep_view(),
                done@ == self@.segments.subrange(0, i as int),
                acc == sat64(spec_total_seq_len(done@)),
            decreases n - i,
        {
            proof {
                lemma_total_seq_len_nonneg(done@);
            }
            let sq = &self.segments[i].sequence;
            let star = sq.len() == 1 && sq[0] == 42;
            proof {
                assert(self@.segments[i as int] == self.segments@[i as int]@);
                if star {
                    assert(sq@ =~= seq![42u8]);
                } else {
                    if sq@.len() == 1 {
                        assert(seq![42u8][0] == 42u8);
                    }
                    assert(sq@ != seq![42u8]);
                }
            }
            let len64: u64 = if star {
                0
            } else {
                sq.len() as u64
            };
            let new_acc = if acc > u64::MAX - len64 {
                u64::MAX
            } else {
                acc + len64
            };
            proof {
                let next = self@.segments.subrange(0, i + 1);
                assert(next.drop_last() =~= done@);
                assert(next.last() == self@.segments[i as int]);
                assert(spec_total_seq_len(next) == spec_total_seq_len(done@)
                    + spec_counted_len(self@.segments[i as int].sequence));
            }
            acc = new_acc;
            done = Ghost(self@.segments.subrange(0, i + 1));
            i = i + 1;
        }
        proof {
            assert(self@.segments.subrange(0, n as int) =~= self@.segments);
        }
        acc
    }
}

/// Whether the parse error `e` is the one that the model `ev` calls for:
/// the same kind, the same line number, the same message.
pub open spec fn err_view(e: PgToolsError) -> ErrV {
    match e {
        PgToolsError::GfaParse { line, message } => ErrV::Parse {
            line: line as int,
            msg: message@,
        },
        PgToolsError::InvalidInput(m) => ErrV::Invalid { msg: m@ },
        _ => ErrV::Other,
    }
}

/// Specification model of the errors the parser can produce.
pub enum ErrV {
    /// A malformed record, with its 1-based line number and message.
    Parse { line: int, msg: Seq<char> },
    /// A bad orientation character.
    Invalid { msg: Seq<char> },
    /// Any other error; the parser never produces this.
    Other,
}

// ------------------------------------------------------------------
// Specification model of the parser
// ------------------------------------------------------------------
/// The predicate "this pair is keyed by `k`".
pub open spec fn pair_keyed(k: Seq<u8>) -> spec_fn((Seq<u8>, Seq<u8>)) -> bool {
    |p: (Seq<u8>, Seq<u8>)| p.0 == k
}

/// Inserts or replaces the pair keyed `k`; the last value for a key wins.
pub open spec fn spec_upsert_pair(
    pairs: Seq<(Seq<u8>, Seq<u8>)>,
    k: Seq<u8>,
    v: Seq<u8>,
) -> Seq<(Seq<u8>, Seq<u8>)> {
    let i = find_index(pairs, pair_keyed(k));
    if 0 <= i < pairs.len() {
        pairs.update(i, (k, v))
    } else {
        pairs.push((k, v))
    }
}

/// Folds the `KEY:VALUE` fields from position `i` on into a tag set.
pub open spec fn spec_tags_fold(
    tags: Seq<(Seq<u8>, Seq<u8>)>,
    fields: Seq<Seq<u8>>,
    i: int,
) -> Seq<(Seq<u8>, Seq<u8>)>
    decreases fields.len() - i,
{
    if i < 0 || i >= fields.len() {
        tags
    } else {
        let f = fields[i];
        let j = find_byte(f, 58u8);
        let tags2 = if 0 <= j < f.len() {
            spec_upsert_pair(tags, f.subrange(0, j), f.subrange(j + 1, f.len() as int))
        } else {
            tags
        };
        spec_tags_fold(tags2, fields, i + 1)
    }
}

/// The two-byte tag key that carries the version string.
pub open spec fn vn_key() -> Seq<u8> {
    seq![86u8, 78u8]
}

/// Folds the fields of a header record, from position `i` on, into the
/// header: the `VN` value becomes the version, every other `KEY:VALUE`
/// field joins the tag set.
pub open spec fn spec_header_fold(h: HeaderV, fields: Seq<Seq<u8>>, i: int) -> HeaderV
    decreases fields.len() - i,
{
    if i < 0 || i >= fields.len() {
        h
    } else {
        let f = fields[i];
        let j = find_byte(f, 58u8);
        let h2 = if 0 <= j < f.len() {
            let k = f.subrange(0, j);
            let v = f.subrange(j + 1, f.len() as int);
            if k == vn_key() {
                HeaderV { version: Some(v), ..h }
            } else {
                HeaderV { tags: spec_upsert_pair(h.tags, k, v), ..h }
            }
        } else {
            h
        };
        spec_header_fold(h2, fields, i + 1)
    }
}

/// Inserts or replaces the segment with the same name; the last occurrence
/// of a name wins, keeping the original position.
pub open spec fn spec_upsert_seg(segs: Seq<SegmentV>, sv: SegmentV) -> Seq<SegmentV> {
    let i = find_index(segs, seg_named(sv.name));
    if 0 <= i < segs.len() {
        segs.update(i, sv)
    } else {
        segs.push(sv)
    }
}

/// What a header record does to the graph; header records never fail.
pub open spec fn spec_apply_header(g: GraphV, fields: Seq<Seq<u8>>) -> GraphV {
    GraphV { header: spec_header_fold(g.header, fields, 1), ..g }
}

/// What a segment record does to the graph: with fewer than 3 fields it is
/// an error; otherwise the named segment is inserted, replacing any earlier
/// one of the same name.
pub open spec fn spec_apply_segment(g: GraphV, fields: Seq<Seq<u8>>, lineno: int) -> Result<
    GraphV,
    ErrV,
> {
    if fields.len() < 3 {
        Err(ErrV::Parse { line: lineno, msg: "Segment record requires at least 3 fields"@ })
    } else {
        let sv = SegmentV {
            name: fields[1],
            sequence: fields[2],
            tags: spec_tags_fold(Seq::empty(), fields, 3),
        };
        Ok(GraphV { segments: spec_upsert_seg(g.segments, sv), ..g })
    }
}

/// The orientation an entire field denotes: the field must be exactly
/// `+` or `-`; anything longer, or any other byte, is invalid.
pub open spec fn spec_orientation_field(f: Seq<u8>) -> Option<Orientation> {
    if f == seq![43u8] {
        Some(Orientation::Forward)
    } else if f == seq![45u8] {
        Some(Orientation::Reverse)
    } else {
        None
    }
}

/// What a link record does to the graph: it needs at least 6 fields and
/// an orientation field that is exactly `+` or `-` on each side, and
/// appends one link.
pub open spec fn spec_apply_link(g: GraphV, fields: Seq<Seq<u8>>, lineno: int) -> Result<
    GraphV,
    ErrV,
> {
    if fields.len() < 6 {
        Err(ErrV::Parse { line: lineno, msg: "Link record requires at least 6 fields"@ })
    } else if fields[2].len() == 0 {
        Err(ErrV::Parse { line: lineno, msg: "Missing from orientation"@ })
    } else if spec_orientation_field(fields[2]) is None {
        Err(ErrV::Invalid { msg: "Invalid orientation"@ })
    } else if fields[4].len() == 0 {
        Err(ErrV::Parse { line: lineno, msg: "Missing to orientation"@ })
    } else if spec_orientation_field(fields[4]) is None {
        Err(ErrV::Invalid { msg: "Invalid orientation"@ })
    } else {
        let lv = LinkV {
            from_segment: fields[1],
            from_orient: spec_orientation_field(fields[2])->Some_0,
            to_segment: fields[3],
            to_orient: spec_orientation_field(fields[4])->Some_0,
            overlap: fields[5],
        };
        Ok(GraphV { links: g.links.push(lv), ..g })
    }
}

/// Folds the comma-separated step tokens of a path record: a token is
/// trimmed; an empty token is skipped; otherwise its mandatory final byte
/// `+` or `-` gives the step's orientation and the rest its segment name.
pub open spec fn spec_steps_fold(
    toks: Seq<Seq<u8>>,
    i: int,
    acc: Seq<StepV>,
    lineno: int,
) -> Result<Seq<StepV>, ErrV>
    decreases toks.len() - i,
{
    if i < 0 || i >= toks.len() {
        Ok(acc)
    } else {
        let t = trimmed(toks[i]);
        if t.len() == 0 {
            spec_steps_fold(toks, i + 1, acc, lineno)
        } else if t.last() == 43u8 {
            spec_steps_fold(
                toks,
                i + 1,
                acc.push(StepV { segment: t.drop_last(), orientation: Orientation::Forward }),
                lineno,
            )
        } else if t.last() == 45u8 {
            spec_steps_fold(
                toks,
                i + 1,
                acc.push(StepV { segment: t.drop_last(), orientation: Orientation::Reverse }),
                lineno,
            )
        } else {
            Err(ErrV::Parse { line: lineno, msg: "Path step missing orientation"@ })
        }
    }
}

/// What a path record does to the graph: it needs at least 3 fields; its
/// third field is the comma-separated step list, and a fourth field other
/// than empty or `*` is the comma-separated overlap list.
pub open spec fn spec_apply_path(g: GraphV, fields: Seq<Seq<u8>>, lineno: int) -> Result<
    GraphV,
    ErrV,
> {
    if fields.len() < 3 {
        Err(ErrV::Parse { line: lineno, msg: "Path record requires at least 3 fields"@ })
    } else {
        match spec_steps_fold(split_bytes(fields[2], 44u8), 0, Seq::empty(), lineno) {
            Err(e) => Err(e),
            Ok(steps) => {
                let overlaps = if fields.len() > 3 && fields[3].len() > 0 && fields[3] != seq![
                    42u8,
                ] {
                    Some(split_bytes(fields[3], 44u8))
                } else {
                    None
                };
                let pv = GfaPathV { name: fields[1], steps, overlaps };
                Ok(GraphV { paths: g.paths.push(pv), ..g })
            },
        }
    }
}

/// Folds the walk string into steps.  A `>` or `<` marker opens a token
/// whose orientation it gives — forward for `>`, reverse for `<` — and the
/// token is emitted when the next marker or the end of the string closes
/// it; empty tokens are dropped, and bytes before the first marker are
/// ignored.
pub open spec fn spec_walk_fold(
    w: Seq<u8>,
    i: int,
    acc: Seq<StepV>,
    cur: Seq<u8>,
    in_seg: bool,
    orient: Orientation,
) -> Seq<StepV>
    decreases w.len() - i,
{
    if i < 0 || i >= w.len() {
        if in_seg && cur.len() > 0 {
            acc.push(StepV { segment: cur, orientation: orient })
        } else {
            acc
        }
    } else {
        let c = w[i];
        if c == 62u8 || c == 60u8 {
            let acc2 = if in_seg && cur.len() > 0 {
                acc.push(StepV { segment: cur, orientation: orient })
            } else {
                acc
            };
            let o2 = if c == 62u8 {
                Orientation::Forward
            } else {
                Orientation::Reverse
            };
            spec_walk_fold(w, i + 1, acc2, Seq::empty(), true, o2)
        } else if in_seg {
            spec_walk_fold(w, i + 1, acc, cur.push(c), in_seg, orient)
        } else {
            spec_walk_fold(w, i + 1, acc, cur, in_seg, orient)
        }
    }
}

/// The name a walk record synthesizes: `sample#haplotype#sequence-id`.
pub open spec fn spec_walk_name(fields: Seq<Seq<u8>>) -> Seq<u8> {
    fields[1] + seq![35u8] + fields[2] + seq![35u8] + fields[3]
}

/// What a walk record does to the graph: it needs at least 7 fields and
/// appends one path whose steps come from the walk string in field 6.
pub open spec fn spec_apply_walk(g: GraphV, fields: Seq<Seq<u8>>, lineno: int) -> Result<
    GraphV,
    ErrV,
> {
    if fields.len() < 7 {
        Err(ErrV::Parse { line: lineno, msg: "Walk record requires at least 7 fields"@ })
    } else {
        let pv = GfaPathV {
            name: spec_walk_name(fields),
            steps: spec_walk_fold(fields[6], 0, Seq::empty(), Seq::empty(), false, Orientation::Forward),
            overlaps: None,
        };
        Ok(GraphV { paths: g.paths.push(pv), ..g })
    }
}

/// What one line does to the graph.  The line is trimmed; blank lines and
/// comment lines are skipped; the first tab-separated field selects the
/// record kind, and an unknown kind is silently ignored.
pub open spec fn spec_apply_line(g: GraphV, line: Seq<u8>, lineno: int) -> Result<GraphV, ErrV> {
    let t = trimmed(line);
    if t.len() == 0 || t[0] == 35u8 {
        Ok(g)
    } else {
        let fields = split_bytes(t, 9u8);
        let f0 = fields[0];
        if f0 == seq![72u8] {
            Ok(spec_apply_header(g, fields))
        } else if f0 == seq![83u8] {
            spec_apply_segment(g, fields, lineno)
        } else if f0 == seq![76u8] {
            spec_apply_link(g, fields, lineno)
        } else if f0 == seq![80u8] {
            spec_apply_path(g, fields, lineno)
        } else if f0 == seq![87u8] {
            spec_apply_walk(g, fields, lineno)
        } else {
            Ok(g)
        }
    }
}

/// Applies the lines from position `i` on to the graph; the first error
/// aborts the whole parse.
pub open spec fn spec_parse_lines(g: GraphV, lines: Seq<Seq<u8>>, i: int) -> Result<GraphV, ErrV>
    decreases lines.len() - i,
{
    if i < 0 || i >= lines.len() {
        Ok(g)
    } else {
        match spec_apply_line(g, lines[i], i + 1) {
            Err(e) => Err(e),
            Ok(g2) => spec_parse_lines(g2, lines, i + 1),
        }
    }
}

/// The complete model of the parser: the input split at line feeds, each
/// line applied in turn to the empty graph.
pub open spec fn spec_parse(input: Seq<u8>) -> Result<GraphV, ErrV> {
    spec_parse_lines(empty_graph(), split_bytes(input, 10u8), 0)
}

// ------------------------------------------------------------------
// Invariant preservation
// ------------------------------------------------------------------
pub proof fn lemma_upsert_seg_unique(segs: Seq<SegmentV>, sv: SegmentV)
    requires
        seg_names_unique(segs),
    ensures
        seg_names_unique(spec_upsert_seg(segs, sv)),
{
    lemma_find_index(segs, seg_named(sv.name));
    let i = find_index(segs, seg_named(sv.name));
    let s2 = spec_upsert_seg(segs, sv);
    if 0 <= i < segs.len() {
        assert(segs[i].name == sv.name);
        assert forall|a: int, b: int| 0 <= a < b < s2.len() implies (#[trigger] s2[a]).name != (
        #[trigger] s2[b]).name by {
            assert(segs[a].name != segs[b].name);
        }
    } else {
        assert forall|a: int, b: int| 0 <= a < b < s2.len() implies (#[trigger] s2[a]).name != (
        #[trigger] s2[b]).name by {
            if b < segs.len() {
                assert(segs[a].name != segs[b].name);
            } else {
                assert(!seg_named(sv.name)(segs[a]));
            }
        }
    }
}

/// A successfully applied line keeps segment names unique.
pub proof fn lemma_apply_line_unique(g: GraphV, line: Seq<u8>, lineno: int)
    requires
        seg_names_unique(g.segments),
    ensures
        spec_apply_line(g, line, lineno) matches Ok(g2) ==> seg_names_unique(g2.segments),
{
    let t = trimmed(line);
    if t.len() == 0 || t[0] == 35u8 {
    } else {
        let fields = split_bytes(t, 9u8);
        let f0 = fields[0];
        if f0 == seq![83u8] {
            if fields.len() >= 3 {
                let sv = SegmentV {
                    name: fields[1],
                    sequence: fields[2],
                    tags: spec_tags_fold(Seq::empty(), fields, 3),
                };
                lemma_upsert_seg_unique(g.segments, sv);
            }
        }
    }
}

// ------------------------------------------------------------------
// Executable parser
// ------------------------------------------------------------------
/// Inserts or replaces the tag pair with this key, keeping the position of
/// an existing key.
fn upsert_pair(tags: &mut Vec<(Vec<u8>, Vec<u8>)>, key: Vec<u8>, value: Vec<u8>)
    ensures
        pairs_view(final(tags)@) == spec_upsert_pair(pairs_view(old(tags)@), key@, value@),
{
    let ghost kv = (key@, value@);
    let n = tags.len();
    let mut i: usize = 0;
    while i < n
        invariant
            0 <= i <= n,
            n == tags@.len(),
            tags@ == old(tags)@,
            forall|j: int| 0 <= j < i ==> !pair_keyed(kv.0)(#[trigger] pairs_view(tags@)[j]),
            kv == (key@, value@),
        decreases n - i,
    {
        let hit = bytes_eq(tags[i].0.as_slice(), key.as_slice());
        proof {
            assert(pairs_view(tags@)[i as int] == (tags@[i as int].0@, tags@[i as int].1@));
        }
        if hit {
            proof {
                assert(pair_keyed(kv.0)(pairs_view(tags@)[i as int]));
                lemma_find_index_at(pairs_view(tags@), pair_keyed(kv.0), i as int);
            }
            let ghost old_pv = pairs_view(tags@);
            tags.set(i, (key, value));
            proof {
                assert(pairs_view(tags@) =~= old_pv.update(i as int, kv));
            }
            return ;
        }
        proof {
            assert(!pair_keyed(kv.0)(pairs_view(tags@)[i as int]));
        }
        i = i + 1;
    }
    proof {
        lemma_find_index_none(pairs_view(tags@), pair_keyed(kv.0));
    }
    let ghost old_pv = pairs_view(tags@);
    tags.push((key, value));
    proof {
        assert(pairs_view(tags@) =~= old_pv.push(kv));
    }
}

/// Inserts or replaces the segment with this name, keeping the position of
/// an existing name.
fn upsert_segment(segs: &mut Vec<Segment>, seg: Segment)
    ensures
        final(segs).deep_view() == spec_upsert_seg(old(segs).deep_view(), seg@),
{
    let ghost sv = seg@;
    let n = segs.len();
    let mut i: usize = 0;
    while i < n
        invariant
            0 <= i <= n,
            n == segs@.len(),
            segs@ == old(segs)@,
            forall|j: int| 0 <= j < i ==> !seg_named(sv.name)(#[trigger] segs.deep_view()[j]),
            sv == seg@,
        decreases n - i,
    {
        let hit = bytes_eq(segs[i].name.as_slice(), seg.name.as_slice());
        proof {
            assert(segs.deep_view()[i as int] == segs@[i as int]@);
        }
        if hit {
            proof {
                assert(seg_named(sv.name)(segs.deep_view()[i as int]));
                lemma_find_index_at(segs.deep_view(), seg_named(sv.name), i as int);
            }
            let ghost old_dv = segs.deep_view();
            segs.set(i, seg);
            proof {
                assert(segs.deep_view() =~= old_dv.update(i as int, sv));
            }
            return ;
        }
        proof {
            assert(!seg_named(sv.name)(segs.deep_view()[i as int]));
        }
        i = i + 1;
    }
    proof {
        lemma_find_index_none(segs.deep_view(), seg_named(sv.name));
    }
    let ghost old_dv = segs.deep_view();
    segs.push(seg);
    proof {
        assert(segs.deep_view() =~= old_dv.push(sv));
    }
}

/// The orientation an entire field denotes, or nothing when the field is
/// not exactly `+` or `-`.
fn orientation_field(f: &Vec<u8>) -> (r: Option<Orientation>)
    ensures
        r == spec_orientation_field(f@),
{
    let one = f.len() == 1;
    proof {
        if one {
            if f@[0] == 43u8 {
                assert(f@ =~= seq![43u8]);
            } else if f@[0] == 45u8 {
                assert(f@ =~= seq![45u8]);
            } else {
                assert(seq![43u8][0] == 43u8);
                assert(seq![45u8][0] == 45u8);
                assert(f@ != seq![43u8] && f@ != seq![45u8]);
            }
        } else {
            assert(f@ != seq![43u8] && f@ != seq![45u8]);
        }
    }
    if one && f[0] == 43 {
        Some(Orientation::Forward)
    } else if one && f[0] == 45 {
        Some(Orientation::Reverse)
    } else {
        None
    }
}

impl GfaGraph {
    /// Applies a header record: each `KEY:VALUE` field joins the header,
    /// with the `VN` value captured as the version string.  Header records
    /// never fail.
    pub fn parse_header(&mut self, fields: &Vec<Vec<u8>>, line: usize) -> (r: Result<
        (),
        PgToolsError,
    >)
        ensures
            r is Ok,
            final(self)@ == spec_apply_header(old(self)@, fields.deep_view()),
    {
        let n = fields.len();
        let mut i: usize = 1;
        while i < n
            invariant
                1 <= i,
                i <= n || i == 1,
                n == fields@.len(),
                self@.segments == old(self)@.segments,
                self@.links == old(self)@.links,
                self@.paths == old(self)@.paths,
                spec_header_fold(old(self)@.header, fields.deep_view(), 1) == spec_header_fold(
                    self@.header,
                    fields.deep_view(),
                    i as int,
                ),
            decreases n - i,
        {
            let f = &fields[i];
            let ghost h_prev = self@.header;
            let ghost fi = fields.deep_view()[i as int];
            proof {
                assert(fi =~= f@);
            }
            match find_byte_exec(f.as_slice(), 58) {
                Some(j) => {
                    proof {
                        lemma_find_byte(f@, 58);
                        assert(0 <= j < f@.len());
                    }
                    let flen = f.len();
                    let key = sub_bytes(f.as_slice(), 0, j);
                    let value = sub_bytes(f.as_slice(), j + 1, flen);
                    let is_vn = key.len() == 2 && key[0] == 86 && key[1] == 78;
                    proof {
                        if is_vn {
                            assert(key@ =~= vn_key());
                        } else {
                            if key@.len() == vn_key().len() {
                                assert(vn_key()[0] == 86u8 && vn_key()[1] == 78u8);
                            }
                            assert(key@ != vn_key());
                        }
                    }
                    if is_vn {
                        self.header.version = Some(value);
                    } else {
                        upsert_pair(&mut self.header.tags, key, value);
                    }
                },
                None => {},
            }
            proof {
                assert(spec_header_fold(h_prev, fields.deep_view(), i as int)
                    == spec_header_fold(self@.header, fields.deep_view(), i + 1));
            }
            i = i + 1;
        }
        Ok(())
    }

    /// Applies a segment record: at least 3 fields, the name and sequence
    /// in fields 1 and 2, further `KEY:VALUE` fields as tags.  A duplicated
    /// name replaces the earlier segment.
    pub fn parse_segment(&mut self, fields: &Vec<Vec<u8>>, line: usize) -> (r: Result<
        (),
        PgToolsError,
    >)
        ensures
            spec_apply_segment(old(self)@, fields.deep_view(), line as int) matches Ok(gv) ==> (r
                is Ok && final(self)@ == gv),
            spec_apply_segment(old(self)@, fields.deep_view(), line as int) matches Err(ev) ==> (r
                matches Err(e) && err_view(e) == ev && final(self)@ == old(self)@),
    {
        let n = fields.len();
        if n < 3 {
            return Err(
                PgToolsError::GfaParse {
                    line,
                    message: "Segment record requires at least 3 fields".to_owned(),
                },
            );
        }
        let name = bytes_to_vec(fields[1].as_slice());
        let sequence = bytes_to_vec(fields[2].as_slice());
        let mut tags: Vec<(Vec<u8>, Vec<u8>)> = Vec::new();
        proof {
            assert(pairs_view(tags@) =~= Seq::<(Seq<u8>, Seq<u8>)>::empty());
        }
        let mut i: usize = 3;
        while i < n
            invariant
                3 <= i <= n,
                n == fields@.len(),
                spec_tags_fold(Seq::empty(), fields.deep_view(), 3) == spec_tags_fold(
                    pairs_view(tags@),
                    fields.deep_view(),
                    i as int,
                ),
            decreases n - i,
        {
            let f = &fields[i];
            let ghost t_prev = pairs_view(tags@);
            let ghost fi = fields.deep_view()[i as int];
            proof {
                assert(fi =~= f@);
            }
            match find_byte_exec(f.as_slice(), 58) {
                Some(j) => {
                    proof {
                        lemma_find_byte(f@, 58);
                        assert(0 <= j < f@.len());
                    }
                    let flen = f.len();
                    let key = sub_bytes(f.as_slice(), 0, j);
                    let value = sub_bytes(f.as_slice(), j + 1, flen);
                    upsert_pair(&mut tags, key, value);
                },
                None => {},
            }
            proof {
                assert(spec_tags_fold(t_prev, fields.deep_view(), i as int) == spec_tags_fold(
                    pairs_view(tags@),
                    fields.deep_view(),
                    i + 1,
                ));
            }
            i = i + 1;
        }
        let seg = Segment { name, sequence, tags };
        proof {
            assert(seg@.name =~= fields.deep_view()[1]);
            assert(seg@.sequence =~= fields.deep_view()[2]);
        }
        upsert_segment(&mut self.segments, seg);
        Ok(())
    }

    /// Applies a link record: at least 6 fields, an orientation field
    /// that is exactly `+` or `-` on each side, and appends one link.
    pub fn parse_link(&mut self, fields: &Vec<Vec<u8>>, line: usize) -> (r: Result<
        (),
        PgToolsError,
    >)
        ensures
            spec_apply_link(old(self)@, fields.deep_view(), line as int) matches Ok(gv) ==> (r
                is Ok && final(self)@ == gv),
            spec_apply_link(old(self)@, fields.deep_view(), line as int) matches Err(ev) ==> (r
                matches Err(e) && err_view(e) == ev && final(self)@ == old(self)@),
    {
        let n = fields.len();
        if n < 6 {
            return Err(
                PgToolsError::GfaParse {
                    line,
                    message: "Link record requires at least 6 fields".to_owned(),
                },
            );
        }
        proof {
            assert(fields.deep_view()[2] =~= fields@[2int]@);
            assert(fields.deep_view()[4] =~= fields@[4int]@);
        }
        if fields[2].len() == 0 {
            return Err(
                PgToolsError::GfaParse { line, message: "Missing from orientation".to_owned() },
            );
        }
        let from_orient = match orientation_field(&fields[2]) {
            Some(o) => o,
            None => {
                return Err(PgToolsError::InvalidInput("Invalid orientation".to_owned()));
            },
        };
        if fields[4].len() == 0 {
            return Err(
                PgToolsError::GfaParse { line, message: "Missing to orientation".to_owned() },
            );
        }
        let to_orient = match orientation_field(&fields[4]) {
            Some(o) => o,
            None => {
                return Err(PgToolsError::InvalidInput("Invalid orientation".to_owned()));
            },
        };
        let link = Link {
            from_segment: bytes_to_vec(fields[1].as_slice()),
            from_orient,
            to_segment: bytes_to_vec(fields[3].as_slice()),
            to_orient,
            overlap: bytes_to_vec(fields[5].as_slice()),
        };
        let ghost prev = self.links.deep_view();
        let ghost lv = link@;
        proof {
            assert(lv.from_segment =~= fields.deep_view()[1]);
            assert(lv.to_segment =~= fields.deep_view()[3]);
            assert(lv.overlap =~= fields.deep_view()[5]);
        }
        self.links.push(link);
        proof {
            assert(self.links.deep_view() =~= prev.push(lv));
        }
        Ok(())
    }

    /// Applies a path record: at least 3 fields; the third is the
    /// comma-separated step list, each step `<segment><+|->`; a fourth
    /// field other than empty or `*` is the comma-separated overlap list.
    pub fn parse_path(&mut self, fields: &Vec<Vec<u8>>, line: usize) -> (r: Result<
        (),
        PgToolsError,
    >)
        ensures
            spec_apply_path(old(self)@, fields.deep_view(), line as int) matches Ok(gv) ==> (r
                is Ok && final(self)@ == gv),
            spec_apply_path(old(self)@, fields.deep_view(), line as int) matches Err(ev) ==> (r
                matches Err(e) && err_view(e) == ev && final(self)@ == old(self)@),
    {
        let n = fields.len();
        if n < 3 {
            return Err(
                PgToolsError::GfaParse {
                    line,
                    message: "Path record requires at least 3 fields".to_owned(),
                },
            );
        }
        proof {
            assert(fields.deep_view()[2] =~= fields@[2int]@);
        }
        let toks = split_bytes_exec(fields[2].as_slice(), 44);
        let ghost tv = toks.deep_view();
        let tn = toks.len();
        let mut steps: Vec<PathStep> = Vec::new();
        proof {
            assert(steps.deep_view() =~= Seq::<StepV>::empty());
        }
        let mut i: usize = 0;
        while i < tn
            invariant
                0 <= i <= tn,
                tn == toks@.len(),
                tv == toks.deep_view(),
                fields.deep_view().len() >= 3,
                tv == split_bytes(fields.deep_view()[2], 44u8),
                spec_steps_fold(tv, 0, Seq::empty(), line as int) == spec_steps_fold(
                    tv,
                    i as int,
                    steps.deep_view(),
                    line as int,
                ),
            decreases tn - i,
        {
            let ghost s_prev = steps.deep_view();
            proof {
                assert(tv[i as int] =~= toks@[i as int]@);
            }
            let t = trim_bytes(toks[i].as_slice());
            let tl = t.len();
            if tl == 0 {
            } else {
                let last = t[tl - 1];
                if last == 43 || last == 45 {
                    let segname = sub_bytes(t.as_slice(), 0, tl - 1);
                    let o = if last == 43 {
                        Orientation::Forward
                    } else {
                        Orientation::Reverse
                    };
                    let step = PathStep { segment: segname, orientation: o };
                    let ghost stv = step@;
                    proof {
                        assert(stv.segment =~= trimmed(tv[i as int]).drop_last());
                    }
                    steps.push(step);
                    proof {
                        assert(steps.deep_view() =~= s_prev.push(stv));
                    }
                } else {
                    return Err(
                        PgToolsError::GfaParse {
                            line,
                            message: "Path step missing orientation".to_owned(),
                        },
                    );
                }
            }
            i = i + 1;
        }
        let overlaps: Option<Vec<Vec<u8>>> = if n > 3 {
            proof {
                assert(fields.deep_view()[3] =~= fields@[3int]@);
            }
            let f3 = &fields[3];
            let star = f3.len() == 1 && f3[0] == 42;
            proof {
                if star {
                    assert(f3@ =~= seq![42u8]);
                } else {
                    if f3@.len() == seq![42u8].len() {
                        assert(seq![42u8][0] == 42u8);
                    }
                    assert(f3@ != seq![42u8]);
                }
            }
            if f3.len() > 0 && !star {
                Some(split_bytes_exec(f3.as_slice(), 44))
            } else {
                None
            }
        } else {
            None
        };
        let p = GfaPath { name: bytes_to_vec(fields[1].as_slice()), steps, overlaps };
        let ghost pv = p@;
        proof {
            assert(pv.name =~= fields.deep_view()[1]);
        }
        let ghost prev = self.paths.deep_view();
        self.paths.push(p);
        proof {
            assert(self.paths.deep_view() =~= prev.push(pv));
        }
        Ok(())
    }

    /// Applies a walk record: at least 7 fields; the path name is
    /// `sample#haplotype#sequence-id`, and the steps come from the walk
    /// string, each taking the orientation of the marker that opened its
    /// token — including the final token, whose closing marker is the end
    /// of the string.
    pub fn parse_walk(&mut self, fields: &Vec<Vec<u8>>, line: usize) -> (r: Result<
        (),
        PgToolsError,
    >)
        ensures
            spec_apply_walk(old(self)@, fields.deep_view(), line as int) matches Ok(gv) ==> (r
                is Ok && final(self)@ == gv),
            spec_apply_walk(old(self)@, fields.deep_view(), line as int) matches Err(ev) ==> (r
                matches Err(e) && err_view(e) == ev && final(self)@ == old(self)@),
    {
        let n = fields.len();
        if n < 7 {
            return Err(
                PgToolsError::GfaParse {
                    line,
                    message: "Walk record requires at least 7 fields".to_owned(),
                },
            );
        }
        let mut name = bytes_to_vec(fields[1].as_slice());
        name.push(35);
        append_bytes(&mut name, fields[2].as_slice());
        name.push(35);
        append_bytes(&mut name, fields[3].as_slice());
        proof {
            assert(fields.deep_view()[1] =~= fields@[1int]@);
            assert(fields.deep_view()[2] =~= fields@[2int]@);
            assert(fields.deep_view()[3] =~= fields@[3int]@);
            assert(name@ =~= spec_walk_name(fields.deep_view()));
        }
        proof {
            assert(fields.deep_view()[6] =~= fields@[6int]@);
        }
        let w = &fields[6];
        let wn = w.len();
        let mut steps: Vec<PathStep> = Vec::new();
        let mut cur: Vec<u8> = Vec::new();
        let mut in_seg = false;
        let mut orient = Orientation::Forward;
        proof {
            assert(steps.deep_view() =~= Seq::<StepV>::empty());
            assert(cur@ =~= Seq::<u8>::empty());
        }
        let mut i: usize = 0;
        while i < wn
            invariant
                0 <= i <= wn,
                wn == w@.len(),
                spec_walk_fold(
                    w@,
                    0,
                    Seq::empty(),
                    Seq::empty(),
                    false,
                    Orientation::Forward,
                ) == spec_walk_fold(w@, i as int, steps.deep_view(), cur@, in_seg, orient),
            decreases wn - i,
        {
            let c = w[i];
            if c == 62 || c == 60 {
                if in_seg && cur.len() > 0 {
                    let ghost s_prev = steps.deep_view();
                    let step = PathStep { segment: cur, orientation: orient };
                    let ghost stv = step@;
                    steps.push(step);
                    proof {
                        assert(steps.deep_view() =~= s_prev.push(stv));
                    }
                    cur = Vec::new();
                } else {
                    cur.clear();
                }
                in_seg = true;
                orient = if c == 62 {
                    Orientation::Forward
                } else {
                    Orientation::Reverse
                };
                proof {
                    assert(cur@ =~= Seq::<u8>::empty());
                }
            } else if in_seg {
                cur.push(c);
            }
            i = i + 1;
        }
        if in_seg && cur.len() > 0 {
            let ghost s_prev = steps.deep_view();
            let step = PathStep { segment: cur, orientation: orient };
            let ghost stv = step@;
            steps.push(step);
            proof {
                assert(steps.deep_view() =~= s_prev.push(stv));
            }
        }
        let p = GfaPath { name, steps, overlaps: None };
        let ghost pv = p@;
        let ghost prev = self.paths.deep_view();
        self.paths.push(p);
        proof {
            assert(self.paths.deep_view() =~= prev.push(pv));
        }
        Ok(())
    }

    /// Applies one line to the graph: the line is trimmed, blank and
    /// comment lines are skipped, and the first tab-separated field selects
    /// the record kind; unknown kinds are ignored.
    fn apply_line(&mut self, line: &[u8], lineno: usize) -> (r: Result<(), PgToolsError>)
        ensures
            spec_apply_line(old(self)@, line@, lineno as int) matches Ok(gv) ==> (r is Ok
                && final(self)@ == gv),
            spec_apply_line(old(self)@, line@, lineno as int) matches Err(ev) ==> (r matches Err(e)
                && err_view(e) == ev && final(self)@ == old(self)@),
    {
        let t = trim_bytes(line);
        if t.len() == 0 {
            return Ok(());
        }
        if t[0] == 35 {
            return Ok(());
        }
        let fields = split_bytes_exec(t.as_slice(), 9);
        let ghost fv = fields.deep_view();
        proof {
            assert(fv[0] =~= fields@[0int]@);
        }
        let f0_len = fields[0].len();
        let c = if f0_len == 1 {
            fields[0][0]
        } else {
            0
        };
        proof {
            if f0_len == 1 {
                if c == 72 {
                    assert(fv[0] =~= seq![72u8]);
                } else {
                    assert(fv[0] != seq![72u8]);
                }
                if c == 83 {
                    assert(fv[0] =~= seq![83u8]);
                } else {
                    assert(fv[0] != seq![83u8]);
                }
                if c == 76 {
                    assert(fv[0] =~= seq![76u8]);
                } else {
                    assert(fv[0] != seq![76u8]);
                }
                if c == 80 {
                    assert(fv[0] =~= seq![80u8]);
                } else {
                    assert(fv[0] != seq![80u8]);
                }
                if c == 87 {
                    assert(fv[0] =~= seq![87u8]);
                } else {
                    assert(fv[0] != seq![87u8]);
                }
            } else {
                assert(fv[0].len() != 1);
                assert(fv[0] != seq![72u8]);
                assert(fv[0] != seq![83u8]);
                assert(fv[0] != seq![76u8]);
                assert(fv[0] != seq![80u8]);
                assert(fv[0] != seq![87u8]);
            }
        }
        if f0_len == 1 && c == 72 {
            self.parse_header(&fields, lineno)
        } else if f0_len == 1 && c == 83 {
            self.parse_segment(&fields, lineno)
        } else if f0_len == 1 && c == 76 {
            self.parse_link(&fields, lineno)
        } else if f0_len == 1 && c == 80 {
            self.parse_path(&fields, lineno)
        } else if f0_len == 1 && c == 87 {
            self.parse_walk(&fields, lineno)
        } else {
            Ok(())
        }
    }

    /// Parses a complete source text, line by line; the first malformed
    /// record aborts the parse with its error.  On success the graph is
    /// exactly what the model `spec_parse` gives, and its segment names are
    /// unique.
    pub fn parse(data: &[u8]) -> (r: Result<GfaGraph, PgToolsError>)
        ensures
            spec_parse(data@) matches Ok(gv) ==> (r matches Ok(g) && g@ == gv && g.wf()),
            spec_parse(data@) matches Err(ev) ==> (r matches Err(e) && err_view(e) == ev),
    {
        let lines = split_bytes_exec(data, 10);
        let ghost lv = lines.deep_view();
        let mut graph = GfaGraph::new();
        let n = lines.len();
        let mut i: usize = 0;
        proof {
            assert(seg_names_unique(graph@.segments));
        }
        while i < n
            invariant
                0 <= i <= n,
                n == lines@.len(),
                lv == lines.deep_view(),
                lv == split_bytes(data@, 10u8),
                seg_names_unique(graph@.segments),
                spec_parse_lines(empty_graph(), lv, 0) == spec_parse_lines(graph@, lv, i as int),
            decreases n - i,
        {
            proof {
                assert(lv[i as int] =~= lines@[i as int]@);
                lemma_apply_line_unique(graph@, lv[i as int], i + 1);
            }
            let lineno = i + 1;
            match graph.apply_line(lines[i].as_slice(), lineno) {
                Ok(_) => {},
                Err(e) => {
                    return Err(e);
                },
            }
            i = i + 1;
        }
        Ok(graph)
    }
}


// ------------------------------------------------------------------
// Compressed input
// ------------------------------------------------------------------
/// What gzip decompression yields for these bytes; the result depends on
/// the bytes alone.
pub uninterp spec fn gunzip_of(data: Seq<u8>) -> Seq<u8>;

/// Whether these bytes are a well-formed gzip stream, so that
/// decompression succeeds; this too depends on the bytes alone.
pub uninterp spec fn gunzip_ok(data: Seq<u8>) -> bool;

/// Relies on flate2's `GzDecoder` (with `Read::read_to_end`):
/// decompressing a byte stream is a function of the bytes alone, it
/// succeeds exactly on well-formed streams, and a malformed one fails
/// with an input error.
#[verifier::external_body]
pub(crate) fn gunzip(data: &Vec<u8>) -> (r: Result<Vec<u8>, PgToolsError>)
    ensures
        r is Ok <==> gunzip_ok(data@),
        r matches Ok(out) ==> out@ == gunzip_of(data@),
        r matches Err(e) ==> e is Io,
{
    let mut decoder = flate2::read::GzDecoder::new(data.as_slice());
    let mut out = Vec::new();
    match std::io::Read::read_to_end(&mut decoder, &mut out) {
        Ok(_) => Ok(out),
        Err(e) => Err(PgToolsError::Io(e.to_string())),
    }
}

impl GfaGraph {
    /// Parses a gzip-compressed source text: the bytes are decompressed
    /// and the result parsed line by line.  A malformed gzip stream — and
    /// nothing else — is an input error; on a well-formed stream the
    /// result is exactly what parsing the decompressed bytes gives.
    pub fn parse_gzipped(data: &Vec<u8>) -> (r: Result<GfaGraph, PgToolsError>)
        ensures
            !gunzip_ok(data@) ==> (r matches Err(e) && e is Io),
            gunzip_ok(data@) ==> (match spec_parse(gunzip_of(data@)) {
                Ok(gv) => r matches Ok(g) && g@ == gv && g.wf(),
                Err(ev) => r matches Err(e) && err_view(e) == ev,
            }),
    {
        match gunzip(data) {
            Err(e) => Err(e),
            Ok(bytes) => GfaGraph::parse(bytes.as_slice()),
        }
    }
}

} // verus!
