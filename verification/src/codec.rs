//! The persisted binary container for an index: an 8-byte magic constant,
//! a 4-byte format version, an 8-byte payload length, then the payload — a
//! self-describing encoding of the whole index — all integers fixed-width
//! little-endian.
//!
//! Encoding and decoding are modelled by specification functions, the
//! executable functions are proved equal to them, and decoding is proved
//! to invert encoding, so a saved index loads back unchanged.
//!
//! The payload encoding is this crate's own: any reader can check the
//! magic constant and the version, but only containers written by this
//! crate's encoder decode.

use crate::error::PgToolsError;
use crate::index::{
    GfaIndex, IndexType, IndexV, PathEntryV, PathIndex, PathIndexEntry, PathIndexV, PosEntryV, PositionIndex,
    PositionIndexEntry, SegEntryV, SegmentIndex, SegmentIndexEntry, INDEX_VERSION,
};
use crate::text::append_bytes;
use vstd::bytes::{
    spec_u32_to_le_bytes, spec_u32_from_le_bytes, spec_u64_from_le_bytes, spec_u64_to_le_bytes,
    lemma_auto_spec_u32_to_from_le_bytes, lemma_auto_spec_u64_to_from_le_bytes, u32_to_le_bytes,
    u64_to_le_bytes, u32_from_le_bytes, u64_from_le_bytes,
};
use vstd::prelude::*;
use vstd::slice::slice_subrange;

verus! {

/// The magic constant that opens every index container.
pub const INDEX_MAGIC: u64 = 0x5047544F4F4C5349;

// ------------------------------------------------------------------
// Specification encoders
// ------------------------------------------------------------------
pub open spec fn enc_u64(x: u64) -> Seq<u8> {
    spec_u64_to_le_bytes(x)
}

pub open spec fn enc_u32(x: u32) -> Seq<u8> {
    spec_u32_to_le_bytes(x)
}

/// A length-prefixed byte string.
pub open spec fn enc_bytes(s: Seq<u8>) -> Seq<u8> {
    enc_u64(s.len() as u64) + s
}

pub open spec fn enc_seg_entry(e: SegEntryV) -> Seq<u8> {
    enc_bytes(e.name) + enc_u64(e.sequence_length as u64) + enc_u64(e.file_offset)
}

pub open spec fn enc_seg_list(s: Seq<SegEntryV>) -> Seq<u8>
    decreases s.len(),
{
    if s.len() == 0 {
        Seq::empty()
    } else {
        enc_seg_entry(s[0]) + enc_seg_list(s.drop_first())
    }
}

pub open spec fn enc_path_entry(e: PathEntryV) -> Seq<u8> {
    enc_bytes(e.name) + enc_u64(e.step_count as u64) + enc_u64(e.total_length) + enc_u64(
        e.file_offset,
    )
}

pub open spec fn enc_path_list(s: Seq<PathEntryV>) -> Seq<u8>
    decreases s.len(),
{
    if s.len() == 0 {
        Seq::empty()
    } else {
        enc_path_entry(s[0]) + enc_path_list(s.drop_first())
    }
}

pub open spec fn enc_name_list(s: Seq<Seq<u8>>) -> Seq<u8>
    decreases s.len(),
{
    if s.len() == 0 {
        Seq::empty()
    } else {
        enc_bytes(s[0]) + enc_name_list(s.drop_first())
    }
}

pub open spec fn enc_pos_entry(e: PosEntryV) -> Seq<u8> {
    enc_bytes(e.path_name) + enc_u64(e.start) + enc_u64(e.end) + enc_bytes(e.segment_name)
        + enc_u64(e.step_index as u64)
}

pub open spec fn enc_pos_list(s: Seq<PosEntryV>) -> Seq<u8>
    decreases s.len(),
{
    if s.len() == 0 {
        Seq::empty()
    } else {
        enc_pos_entry(s[0]) + enc_pos_list(s.drop_first())
    }
}

pub open spec fn enc_group(gr: (Seq<u8>, Seq<PosEntryV>)) -> Seq<u8> {
    enc_bytes(gr.0) + enc_u64(gr.1.len() as u64) + enc_pos_list(gr.1)
}

pub open spec fn enc_group_list(s: Seq<(Seq<u8>, Seq<PosEntryV>)>) -> Seq<u8>
    decreases s.len(),
{
    if s.len() == 0 {
        Seq::empty()
    } else {
        enc_group(s[0]) + enc_group_list(s.drop_first())
    }
}

pub open spec fn enc_seg_index(s: Seq<SegEntryV>) -> Seq<u8> {
    enc_u64(s.len() as u64) + enc_seg_list(s)
}

pub open spec fn enc_path_index(pi: PathIndexV) -> Seq<u8> {
    enc_u64(pi.entries.len() as u64) + enc_path_list(pi.entries) + enc_u64(
        pi.path_names.len() as u64,
    ) + enc_name_list(pi.path_names)
}

pub open spec fn enc_pos_index(s: Seq<(Seq<u8>, Seq<PosEntryV>)>) -> Seq<u8> {
    enc_u64(s.len() as u64) + enc_group_list(s)
}

pub open spec fn enc_opt_seg(o: Option<Seq<SegEntryV>>) -> Seq<u8> {
    match o {
        None => seq![0u8],
        Some(s) => seq![1u8] + enc_seg_index(s),
    }
}

pub open spec fn enc_opt_path(o: Option<PathIndexV>) -> Seq<u8> {
    match o {
        None => seq![0u8],
        Some(pi) => seq![1u8] + enc_path_index(pi),
    }
}

pub open spec fn enc_opt_pos(o: Option<Seq<(Seq<u8>, Seq<PosEntryV>)>>) -> Seq<u8> {
    match o {
        None => seq![0u8],
        Some(s) => seq![1u8] + enc_pos_index(s),
    }
}

/// The payload: the full index, field by field.
pub open spec fn enc_index(v: IndexV) -> Seq<u8> {
    enc_bytes(v.source_file) + enc_u32(v.version) + enc_opt_seg(v.segment_index) + enc_opt_path(
        v.path_index,
    ) + enc_opt_pos(v.position_index)
}

/// The whole container: magic, version, payload length, payload.
pub open spec fn spec_container(v: IndexV) -> Seq<u8> {
    enc_u64(INDEX_MAGIC) + enc_u32(v.version) + enc_u64(enc_index(v).len() as u64) + enc_index(v)
}

// ------------------------------------------------------------------
// Push lemmas for the list encoders
// ------------------------------------------------------------------
pub proof fn lemma_enc_seg_list_push(s: Seq<SegEntryV>, x: SegEntryV)
    ensures
        enc_seg_list(s.push(x)) == enc_seg_list(s) + enc_seg_entry(x),
    decreases s.len(),
{
    reveal_with_fuel(enc_seg_list, 3);
    if s.len() == 0 {
        assert(s.push(x)[0] == x);
        assert(s.push(x).drop_first() =~= Seq::<SegEntryV>::empty());
        assert(enc_seg_list(s.push(x)) =~= enc_seg_list(s) + enc_seg_entry(x));
    } else {
        assert(s.push(x).drop_first() =~= s.drop_first().push(x));
        lemma_enc_seg_list_push(s.drop_first(), x);
        assert(s.push(x)[0] == s[0]);
        assert(enc_seg_list(s.push(x)) == enc_seg_entry(s[0]) + enc_seg_list(
            s.drop_first().push(x),
        ));
        assert(enc_seg_list(s.drop_first().push(x)) == enc_seg_list(s.drop_first())
            + enc_seg_entry(x));
        assert(enc_seg_list(s) == enc_seg_entry(s[0]) + enc_seg_list(s.drop_first()));
        assert(enc_seg_list(s.push(x)) =~= enc_seg_list(s) + enc_seg_entry(x));
    }
}

pub proof fn lemma_enc_path_list_push(s: Seq<PathEntryV>, x: PathEntryV)
    ensures
        enc_path_list(s.push(x)) == enc_path_list(s) + enc_path_entry(x),
    decreases s.len(),
{
    reveal_with_fuel(enc_path_list, 3);
    if s.len() == 0 {
        assert(s.push(x)[0] == x);
        assert(s.push(x).drop_first() =~= Seq::<PathEntryV>::empty());
        assert(enc_path_list(s.push(x)) =~= enc_path_list(s) + enc_path_entry(x));
    } else {
        assert(s.push(x).drop_first() =~= s.drop_first().push(x));
        lemma_enc_path_list_push(s.drop_first(), x);
        assert(s.push(x)[0] == s[0]);
        assert(enc_path_list(s.push(x)) == enc_path_entry(s[0]) + enc_path_list(s.drop_first().push(x)));
        assert(enc_path_list(s.drop_first().push(x)) == enc_path_list(s.drop_first()) + enc_path_entry(x));
        assert(enc_path_list(s) == enc_path_entry(s[0]) + enc_path_list(s.drop_first()));
        assert(enc_path_list(s.push(x)) =~= enc_path_list(s) + enc_path_entry(x));
    }
}

pub proof fn lemma_enc_name_list_push(s: Seq<Seq<u8>>, x: Seq<u8>)
    ensures
        enc_name_list(s.push(x)) == enc_name_list(s) + enc_bytes(x),
    decreases s.len(),
{
    reveal_with_fuel(enc_name_list, 3);
    if s.len() == 0 {
        assert(s.push(x)[0] == x);
        assert(s.push(x).drop_first() =~= Seq::<Seq<u8>>::empty());
        assert(enc_name_list(s.push(x)) =~= enc_name_list(s) + enc_bytes(x));
    } else {
        assert(s.push(x).drop_first() =~= s.drop_first().push(x));
        lemma_enc_name_list_push(s.drop_first(), x);
        assert(s.push(x)[0] == s[0]);
        assert(enc_name_list(s.push(x)) == enc_bytes(s[0]) + enc_name_list(s.drop_first().push(x)));
        assert(enc_name_list(s.drop_first().push(x)) == enc_name_list(s.drop_first()) + enc_bytes(x));
        assert(enc_name_list(s) == enc_bytes(s[0]) + enc_name_list(s.drop_first()));
        assert(enc_name_list(s.push(x)) =~= enc_name_list(s) + enc_bytes(x));
    }
}

pub proof fn lemma_enc_pos_list_push(s: Seq<PosEntryV>, x: PosEntryV)
    ensures
        enc_pos_list(s.push(x)) == enc_pos_list(s) + enc_pos_entry(x),
    decreases s.len(),
{
    reveal_with_fuel(enc_pos_list, 3);
    if s.len() == 0 {
        assert(s.push(x)[0] == x);
        assert(s.push(x).drop_first() =~= Seq::<PosEntryV>::empty());
        assert(enc_pos_list(s.push(x)) =~= enc_pos_list(s) + enc_pos_entry(x));
    } else {
        assert(s.push(x).drop_first() =~= s.drop_first().push(x));
        lemma_enc_pos_list_push(s.drop_first(), x);
        assert(s.push(x)[0] == s[0]);
        assert(enc_pos_list(s.push(x)) == enc_pos_entry(s[0]) + enc_pos_list(s.drop_first().push(x)));
        assert(enc_pos_list(s.drop_first().push(x)) == enc_pos_list(s.drop_first()) + enc_pos_entry(x));
        assert(enc_pos_list(s) == enc_pos_entry(s[0]) + enc_pos_list(s.drop_first()));
        assert(enc_pos_list(s.push(x)) =~= enc_pos_list(s) + enc_pos_entry(x));
    }
}

pub proof fn lemma_enc_group_list_push(s: Seq<(Seq<u8>, Seq<PosEntryV>)>, x: (Seq<u8>, Seq<
    PosEntryV,
>))
    ensures
        enc_group_list(s.push(x)) == enc_group_list(s) + enc_group(x),
    decreases s.len(),
{
    reveal_with_fuel(enc_group_list, 3);
    if s.len() == 0 {
        assert(s.push(x)[0] == x);
        assert(s.push(x).drop_first() =~= Seq::<(Seq<u8>, Seq<PosEntryV>)>::empty());
        assert(enc_group_list(s.push(x)) =~= enc_group_list(s) + enc_group(x));
    } else {
        assert(s.push(x).drop_first() =~= s.drop_first().push(x));
        lemma_enc_group_list_push(s.drop_first(), x);
        assert(s.push(x)[0] == s[0]);
        assert(enc_group_list(s.push(x)) == enc_group(s[0]) + enc_group_list(s.drop_first().push(x)));
        assert(enc_group_list(s.drop_first().push(x)) == enc_group_list(s.drop_first()) + enc_group(x));
        assert(enc_group_list(s) == enc_group(s[0]) + enc_group_list(s.drop_first()));
        assert(enc_group_list(s.push(x)) =~= enc_group_list(s) + enc_group(x));
    }
}

// ------------------------------------------------------------------
// Executable encoders
// ------------------------------------------------------------------
/// Appends the little-endian bytes of a 64-bit integer.
fn put_u64(out: &mut Vec<u8>, x: u64)
    ensures
        final(out)@ == old(out)@ + enc_u64(x),
{
    let piece = u64_to_le_bytes(x);
    append_bytes(out, piece.as_slice());
}

/// Appends the little-endian bytes of a 32-bit integer.
fn put_u32(out: &mut Vec<u8>, x: u32)
    ensures
        final(out)@ == old(out)@ + enc_u32(x),
{
    let piece = u32_to_le_bytes(x);
    append_bytes(out, piece.as_slice());
}

/// Appends a length-prefixed byte string.
fn put_bytes(out: &mut Vec<u8>, s: &[u8])
    ensures
        final(out)@ == old(out)@ + enc_bytes(s@),
{
    put_u64(out, s.len() as u64);
    append_bytes(out, s);
    proof {
        assert(out@ =~= old(out)@ + enc_bytes(s@));
    }
}

fn put_seg_entry(out: &mut Vec<u8>, e: &SegmentIndexEntry)
    ensures
        final(out)@ == old(out)@ + enc_seg_entry(e@),
{
    put_bytes(out, e.name.as_slice());
    put_u64(out, e.sequence_length as u64);
    put_u64(out, e.file_offset);
    proof {
        assert(out@ =~= old(out)@ + enc_seg_entry(e@));
    }
}

fn put_path_entry(out: &mut Vec<u8>, e: &PathIndexEntry)
    ensures
        final(out)@ == old(out)@ + enc_path_entry(e@),
{
    put_bytes(out, e.name.as_slice());
    put_u64(out, e.step_count as u64);
    put_u64(out, e.total_length);
    put_u64(out, e.file_offset);
    proof {
        assert(out@ =~= old(out)@ + enc_path_entry(e@));
    }
}

fn put_pos_entry(out: &mut Vec<u8>, e: &PositionIndexEntry)
    ensures
        final(out)@ == old(out)@ + enc_pos_entry(e@),
{
    put_bytes(out, e.path_name.as_slice());
    put_u64(out, e.start);
    put_u64(out, e.end);
    put_bytes(out, e.segment_name.as_slice());
    put_u64(out, e.step_index as u64);
    proof {
        assert(out@ =~= old(out)@ + enc_pos_entry(e@));
    }
}

fn put_seg_index(out: &mut Vec<u8>, si: &SegmentIndex)
    ensures
        final(out)@ == old(out)@ + enc_seg_index(si@),
{
    let n = si.entries.len();
    put_u64(out, n as u64);
    let ghost base = out@;
    let mut i: usize = 0;
    proof {
        assert(base + enc_seg_list(si@.subrange(0, 0)) =~= base);
    }
    while i < n
        invariant
            0 <= i <= n,
            n == si.entries@.len(),
            out@ == base + enc_seg_list(si@.subrange(0, i as int)),
        decreases n - i,
    {
        proof {
            assert(si@[i as int] == si.entries@[i as int]@);
        }
        put_seg_entry(out, &si.entries[i]);
        proof {
            lemma_enc_seg_list_push(si@.subrange(0, i as int), si@[i as int]);
            assert(si@.subrange(0, i + 1) =~= si@.subrange(0, i as int).push(si@[i as int]));
            assert(out@ =~= base + enc_seg_list(si@.subrange(0, i + 1)));
        }
        i = i + 1;
    }
    proof {
        assert(si@.subrange(0, n as int) =~= si@);
    }
}

fn put_path_index(out: &mut Vec<u8>, pi: &PathIndex)
    ensures
        final(out)@ == old(out)@ + enc_path_index(pi@),
{
    let n = pi.entries.len();
    put_u64(out, n as u64);
    let ghost base = out@;
    let mut i: usize = 0;
    proof {
        assert(base + enc_path_list(pi@.entries.subrange(0, 0)) =~= base);
    }
    while i < n
        invariant
            0 <= i <= n,
            n == pi.entries@.len(),
            pi@.entries == pi.entries.deep_view(),
            out@ == base + enc_path_list(pi@.entries.subrange(0, i as int)),
        decreases n - i,
    {
        proof {
            assert(pi@.entries[i as int] == pi.entries@[i as int]@);
        }
        put_path_entry(out, &pi.entries[i]);
        proof {
            lemma_enc_path_list_push(pi@.entries.subrange(0, i as int), pi@.entries[i as int]);
            assert(pi@.entries.subrange(0, i + 1) =~= pi@.entries.subrange(0, i as int).push(
                pi@.entries[i as int],
            ));
            assert(out@ =~= base + enc_path_list(pi@.entries.subrange(0, i + 1)));
        }
        i = i + 1;
    }
    proof {
        assert(pi@.entries.subrange(0, n as int) =~= pi@.entries);
    }
    let m = pi.path_names.len();
    put_u64(out, m as u64);
    let ghost base2 = out@;
    let mut k: usize = 0;
    proof {
        assert(base2 + enc_name_list(pi@.path_names.subrange(0, 0)) =~= base2);
    }
    while k < m
        invariant
            0 <= k <= m,
            m == pi.path_names@.len(),
            pi@.path_names == pi.path_names.deep_view(),
            out@ == base2 + enc_name_list(pi@.path_names.subrange(0, k as int)),
        decreases m - k,
    {
        proof {
            assert(pi@.path_names[k as int] =~= pi.path_names@[k as int]@);
        }
        put_bytes(out, pi.path_names[k].as_slice());
        proof {
            lemma_enc_name_list_push(pi@.path_names.subrange(0, k as int), pi@.path_names[k as int]);
            assert(pi@.path_names.subrange(0, k + 1) =~= pi@.path_names.subrange(0, k as int).push(
                pi@.path_names[k as int],
            ));
            assert(out@ =~= base2 + enc_name_list(pi@.path_names.subrange(0, k + 1)));
        }
        k = k + 1;
    }
    proof {
        assert(pi@.path_names.subrange(0, m as int) =~= pi@.path_names);
        assert(out@ =~= old(out)@ + enc_path_index(pi@));
    }
}

fn put_group(out: &mut Vec<u8>, name: &[u8], entries: &Vec<PositionIndexEntry>)
    ensures
        final(out)@ == old(out)@ + enc_group((name@, entries.deep_view())),
{
    put_bytes(out, name);
    let n = entries.len();
    put_u64(out, n as u64);
    let ghost base = out@;
    let ghost ev = entries.deep_view();
    let mut i: usize = 0;
    proof {
        assert(base + enc_pos_list(ev.subrange(0, 0)) =~= base);
    }
    while i < n
        invariant
            0 <= i <= n,
            n == entries@.len(),
            ev == entries.deep_view(),
            out@ == base + enc_pos_list(ev.subrange(0, i as int)),
        decreases n - i,
    {
        proof {
            assert(ev[i as int] == entries@[i as int]@);
        }
        put_pos_entry(out, &entries[i]);
        proof {
            lemma_enc_pos_list_push(ev.subrange(0, i as int), ev[i as int]);
            assert(ev.subrange(0, i + 1) =~= ev.subrange(0, i as int).push(ev[i as int]));
            assert(out@ =~= base + enc_pos_list(ev.subrange(0, i + 1)));
        }
        i = i + 1;
    }
    proof {
        assert(ev.subrange(0, n as int) =~= ev);
        assert(out@ =~= old(out)@ + enc_group((name@, entries.deep_view())));
    }
}

fn put_pos_index(out: &mut Vec<u8>, pi: &PositionIndex)
    ensures
        final(out)@ == old(out)@ + enc_pos_index(pi@),
{
    let n = pi.entries.len();
    put_u64(out, n as u64);
    let ghost base = out@;
    let mut i: usize = 0;
    proof {
        assert(base + enc_group_list(pi@.subrange(0, 0)) =~= base);
    }
    while i < n
        invariant
            0 <= i <= n,
            n == pi.entries@.len(),
            pi@ == crate::index::groups_view(pi.entries@),
            out@ == base + enc_group_list(pi@.subrange(0, i as int)),
        decreases n - i,
    {
        proof {
            assert(pi@[i as int] == (pi.entries@[i as int].0@, pi.entries@[i as int].1.deep_view()));
        }
        let gr = &pi.entries[i];
        put_group(out, gr.0.as_slice(), &gr.1);
        proof {
            lemma_enc_group_list_push(pi@.subrange(0, i as int), pi@[i as int]);
            assert(pi@.subrange(0, i + 1) =~= pi@.subrange(0, i as int).push(pi@[i as int]));
            assert(out@ =~= base + enc_group_list(pi@.subrange(0, i + 1)));
        }
        i = i + 1;
    }
    proof {
        assert(pi@.subrange(0, n as int) =~= pi@);
    }
}

impl GfaIndex {
    /// The payload encoding of this index.
    fn encode_payload(&self) -> (r: Vec<u8>)
        ensures
            r@ == enc_index(self@),
    {
        let mut out: Vec<u8> = Vec::new();
        put_bytes(&mut out, self.source_file.as_slice());
        put_u32(&mut out, self.version);
        match &self.segment_index {
            None => {
                out.push(0);
                proof {
                    assert(out@ =~= enc_bytes(self@.source_file) + enc_u32(self@.version)
                        + enc_opt_seg(self@.segment_index));
                }
            },
            Some(si) => {
                out.push(1);
                let ghost before = out@;
                put_seg_index(&mut out, si);
                proof {
                    assert(seq![1u8] + enc_seg_index(si@) =~= enc_opt_seg(self@.segment_index));
                    assert(out@ =~= enc_bytes(self@.source_file) + enc_u32(self@.version)
                        + enc_opt_seg(self@.segment_index));
                }
            },
        }
        let ghost with_seg = out@;
        match &self.path_index {
            None => {
                out.push(0);
                proof {
                    assert(out@ =~= with_seg + enc_opt_path(self@.path_index));
                }
            },
            Some(pi) => {
                out.push(1);
                put_path_index(&mut out, pi);
                proof {
                    assert(seq![1u8] + enc_path_index(pi@) =~= enc_opt_path(self@.path_index));
                    assert(out@ =~= with_seg + enc_opt_path(self@.path_index));
                }
            },
        }
        let ghost with_path = out@;
        match &self.position_index {
            None => {
                out.push(0);
                proof {
                    assert(out@ =~= with_path + enc_opt_pos(self@.position_index));
                }
            },
            Some(pi) => {
                out.push(1);
                put_pos_index(&mut out, pi);
                proof {
                    assert(seq![1u8] + enc_pos_index(pi@) =~= enc_opt_pos(self@.position_index));
                    assert(out@ =~= with_path + enc_opt_pos(self@.position_index));
                }
            },
        }
        proof {
            assert(out@ =~= enc_index(self@));
        }
        out
    }

    /// The complete container an index is saved as: magic, version,
    /// payload length, payload.
    pub fn to_bytes(&self) -> (r: Vec<u8>)
        ensures
            r@ == spec_container(self@),
            index_enc_wf(self@),
    {
        proof {
            lemma_index_enc_wf(self);
        }
        let payload = self.encode_payload();
        let mut out: Vec<u8> = Vec::new();
        put_u64(&mut out, INDEX_MAGIC);
        put_u32(&mut out, self.version);
        put_u64(&mut out, payload.len() as u64);
        append_bytes(&mut out, payload.as_slice());
        proof {
            assert(out@ =~= spec_container(self@));
        }
        out
    }
}

// ------------------------------------------------------------------
// Encodability
// ------------------------------------------------------------------
/// Whether an index model is within the bounds the encoding carries:
/// every byte string shorter than 2^64, every list no longer than a
/// machine word.  Every index held in memory satisfies this.
pub open spec fn index_enc_wf(v: IndexV) -> bool {
    &&& v.source_file.len() <= u64::MAX
    &&& match v.segment_index {
        None => true,
        Some(s) => s.len() <= usize::MAX && forall|i: int|
            0 <= i < s.len() ==> (#[trigger] s[i]).name.len() <= u64::MAX,
    }
    &&& match v.path_index {
        None => true,
        Some(pi) => {
            &&& pi.entries.len() <= usize::MAX
            &&& forall|i: int|
                0 <= i < pi.entries.len() ==> (#[trigger] pi.entries[i]).name.len() <= u64::MAX
            &&& pi.path_names.len() <= usize::MAX
            &&& forall|i: int|
                0 <= i < pi.path_names.len() ==> (#[trigger] pi.path_names[i]).len() <= u64::MAX
        },
    }
    &&& match v.position_index {
        None => true,
        Some(s) => {
            &&& s.len() <= usize::MAX
            &&& forall|i: int|
                0 <= i < s.len() ==> {
                    &&& (#[trigger] s[i]).0.len() <= u64::MAX
                    &&& s[i].1.len() <= usize::MAX
                    &&& forall|j: int|
                        0 <= j < s[i].1.len() ==> {
                            &&& (#[trigger] s[i].1[j]).path_name.len() <= u64::MAX
                            &&& s[i].1[j].segment_name.len() <= u64::MAX
                        }
                }
        },
    }
}

/// The view of an index held in memory is within the encoding's bounds.
pub proof fn lemma_index_enc_wf(idx: &GfaIndex)
    ensures
        index_enc_wf(idx@),
{
    broadcast use vstd::std_specs::vec::axiom_spec_len;

    assert(idx.source_file.len() == idx.source_file@.len());
    match idx.segment_index {
        None => {},
        Some(si) => {
            assert(si.entries.len() == si.entries@.len());
            assert forall|i: int| 0 <= i < si@.len() implies (#[trigger] si@[i]).name.len()
                <= u64::MAX by {
                assert(si@[i] == si.entries@[i]@);
                assert(si.entries@[i].name.len() == si.entries@[i].name@.len());
            }
        },
    }
    match idx.path_index {
        None => {},
        Some(pi) => {
            assert(pi.entries.len() == pi.entries@.len());
            assert(pi.path_names.len() == pi.path_names@.len());
            assert forall|i: int| 0 <= i < pi@.entries.len() implies (
            #[trigger] pi@.entries[i]).name.len() <= u64::MAX by {
                assert(pi@.entries[i] == pi.entries@[i]@);
                assert(pi.entries@[i].name.len() == pi.entries@[i].name@.len());
            }
            assert forall|i: int| 0 <= i < pi@.path_names.len() implies (
            #[trigger] pi@.path_names[i]).len() <= u64::MAX by {
                assert(pi@.path_names[i] == pi.path_names@[i].deep_view());
                assert(pi.path_names@[i].len() == pi.path_names@[i]@.len());
                assert(pi.path_names@[i].deep_view() =~= pi.path_names@[i]@);
            }
        },
    }
    match idx.position_index {
        None => {},
        Some(pi) => {
            assert(pi.entries.len() == pi.entries@.len());
            assert forall|i: int| 0 <= i < pi@.len() implies {
                &&& (#[trigger] pi@[i]).0.len() <= u64::MAX
                &&& pi@[i].1.len() <= usize::MAX
                &&& forall|j: int|
                    0 <= j < pi@[i].1.len() ==> {
                        &&& (#[trigger] pi@[i].1[j]).path_name.len() <= u64::MAX
                        &&& pi@[i].1[j].segment_name.len() <= u64::MAX
                    }
            } by {
                assert(pi@[i] == (pi.entries@[i].0@, pi.entries@[i].1.deep_view()));
                assert(pi.entries@[i].0.len() == pi.entries@[i].0@.len());
                assert(pi.entries@[i].1.len() == pi.entries@[i].1@.len());
                assert forall|j: int| 0 <= j < pi@[i].1.len() implies {
                    &&& (#[trigger] pi@[i].1[j]).path_name.len() <= u64::MAX
                    &&& pi@[i].1[j].segment_name.len() <= u64::MAX
                } by {
                    assert(pi@[i].1[j] == pi.entries@[i].1@[j]@);
                    assert(pi.entries@[i].1@[j].path_name.len()
                        == pi.entries@[i].1@[j].path_name@.len());
                    assert(pi.entries@[i].1@[j].segment_name.len()
                        == pi.entries@[i].1@[j].segment_name@.len());
                }
            }
        },
    }
}

// ------------------------------------------------------------------
// Specification decoders
// ------------------------------------------------------------------
pub open spec fn dec_u64(data: Seq<u8>, pos: int) -> Option<(u64, int)> {
    if 0 <= pos && pos + 8 <= data.len() {
        Some((spec_u64_from_le_bytes(data.subrange(pos, pos + 8)), pos + 8))
    } else {
        None
    }
}

pub open spec fn dec_u32(data: Seq<u8>, pos: int) -> Option<(u32, int)> {
    if 0 <= pos && pos + 4 <= data.len() {
        Some((spec_u32_from_le_bytes(data.subrange(pos, pos + 4)), pos + 4))
    } else {
        None
    }
}

pub open spec fn dec_byte(data: Seq<u8>, pos: int) -> Option<(u8, int)> {
    if 0 <= pos && pos + 1 <= data.len() {
        Some((data[pos], pos + 1))
    } else {
        None
    }
}

pub open spec fn dec_bytes(data: Seq<u8>, pos: int) -> Option<(Seq<u8>, int)> {
    match dec_u64(data, pos) {
        None => None,
        Some((n, p)) => if p + n <= data.len() {
            Some((data.subrange(p, p + n), p + n))
        } else {
            None
        },
    }
}

pub open spec fn dec_seg_entry(data: Seq<u8>, pos: int) -> Option<(SegEntryV, int)> {
    match dec_bytes(data, pos) {
        None => None,
        Some((name, p1)) => match dec_u64(data, p1) {
            None => None,
            Some((sl, p2)) => if sl > usize::MAX {
                None
            } else {
                match dec_u64(data, p2) {
                    None => None,
                    Some((fo, p3)) => Some(
                        (SegEntryV { name, sequence_length: sl as usize, file_offset: fo }, p3),
                    ),
                }
            },
        },
    }
}

pub open spec fn dec_seg_list(data: Seq<u8>, pos: int, count: int) -> Option<(Seq<SegEntryV>, int)>
    decreases count,
{
    if count <= 0 {
        Some((Seq::empty(), pos))
    } else {
        match dec_seg_entry(data, pos) {
            None => None,
            Some((e, p)) => match dec_seg_list(data, p, count - 1) {
                None => None,
                Some((rest, p2)) => Some((seq![e] + rest, p2)),
            },
        }
    }
}

pub open spec fn dec_seg_index(data: Seq<u8>, pos: int) -> Option<(Seq<SegEntryV>, int)> {
    match dec_u64(data, pos) {
        None => None,
        Some((n, p)) => if n > usize::MAX {
            None
        } else {
            dec_seg_list(data, p, n as int)
        },
    }
}

pub open spec fn dec_path_entry(data: Seq<u8>, pos: int) -> Option<(PathEntryV, int)> {
    match dec_bytes(data, pos) {
        None => None,
        Some((name, p1)) => match dec_u64(data, p1) {
            None => None,
            Some((sc, p2)) => if sc > usize::MAX {
                None
            } else {
                match dec_u64(data, p2) {
                    None => None,
                    Some((tl, p3)) => match dec_u64(data, p3) {
                        None => None,
                        Some((fo, p4)) => Some(
                            (
                                PathEntryV {
                                    name,
                                    step_count: sc as usize,
                                    total_length: tl,
                                    file_offset: fo,
                                },
                                p4,
                            ),
                        ),
                    },
                }
            },
        },
    }
}

pub open spec fn dec_path_list(data: Seq<u8>, pos: int, count: int) -> Option<
    (Seq<PathEntryV>, int),
>
    decreases count,
{
    if count <= 0 {
        Some((Seq::empty(), pos))
    } else {
        match dec_path_entry(data, pos) {
            None => None,
            Some((e, p)) => match dec_path_list(data, p, count - 1) {
                None => None,
                Some((rest, p2)) => Some((seq![e] + rest, p2)),
            },
        }
    }
}

pub open spec fn dec_name_list(data: Seq<u8>, pos: int, count: int) -> Option<(Seq<Seq<u8>>, int)>
    decreases count,
{
    if count <= 0 {
        Some((Seq::empty(), pos))
    } else {
        match dec_bytes(data, pos) {
            None => None,
            Some((s, p)) => match dec_name_list(data, p, count - 1) {
                None => None,
                Some((rest, p2)) => Some((seq![s] + rest, p2)),
            },
        }
    }
}

pub open spec fn dec_path_index(data: Seq<u8>, pos: int) -> Option<(PathIndexV, int)> {
    match dec_u64(data, pos) {
        None => None,
        Some((n, p)) => if n > usize::MAX {
            None
        } else {
            match dec_path_list(data, p, n as int) {
                None => None,
                Some((entries, p2)) => match dec_u64(data, p2) {
                    None => None,
                    Some((m, p3)) => if m > usize::MAX {
                        None
                    } else {
                        match dec_name_list(data, p3, m as int) {
                            None => None,
                            Some((path_names, p4)) => Some(
                                (PathIndexV { entries, path_names }, p4),
                            ),
                        }
                    },
                },
            }
        },
    }
}

pub open spec fn dec_pos_entry(data: Seq<u8>, pos: int) -> Option<(PosEntryV, int)> {
    match dec_bytes(data, pos) {
        None => None,
        Some((path_name, p1)) => match dec_u64(data, p1) {
            None => None,
            Some((start, p2)) => match dec_u64(data, p2) {
                None => None,
                Some((end, p3)) => match dec_bytes(data, p3) {
                    None => None,
                    Some((segment_name, p4)) => match dec_u64(data, p4) {
                        None => None,
                        Some((si, p5)) => if si > usize::MAX {
                            None
                        } else {
                            Some(
                                (
                                    PosEntryV {
                                        path_name,
                                        start,
                                        end,
                                        segment_name,
                                        step_index: si as usize,
                                    },
                                    p5,
                                ),
                            )
                        },
                    },
                },
            },
        },
    }
}

pub open spec fn dec_pos_list(data: Seq<u8>, pos: int, count: int) -> Option<(Seq<PosEntryV>, int)>
    decreases count,
{
    if count <= 0 {
        Some((Seq::empty(), pos))
    } else {
        match dec_pos_entry(data, pos) {
            None => None,
            Some((e, p)) => match dec_pos_list(data, p, count - 1) {
                None => None,
                Some((rest, p2)) => Some((seq![e] + rest, p2)),
            },
        }
    }
}

pub open spec fn dec_group(data: Seq<u8>, pos: int) -> Option<((Seq<u8>, Seq<PosEntryV>), int)> {
    match dec_bytes(data, pos) {
        None => None,
        Some((name, p1)) => match dec_u64(data, p1) {
            None => None,
            Some((n, p2)) => if n > usize::MAX {
                None
            } else {
                match dec_pos_list(data, p2, n as int) {
                    None => None,
                    Some((entries, p3)) => Some(((name, entries), p3)),
                }
            },
        },
    }
}

pub open spec fn dec_group_list(data: Seq<u8>, pos: int, count: int) -> Option<
    (Seq<(Seq<u8>, Seq<PosEntryV>)>, int),
>
    decreases count,
{
    if count <= 0 {
        Some((Seq::empty(), pos))
    } else {
        match dec_group(data, pos) {
            None => None,
            Some((g, p)) => match dec_group_list(data, p, count - 1) {
                None => None,
                Some((rest, p2)) => Some((seq![g] + rest, p2)),
            },
        }
    }
}

pub open spec fn dec_pos_index(data: Seq<u8>, pos: int) -> Option<
    (Seq<(Seq<u8>, Seq<PosEntryV>)>, int),
> {
    match dec_u64(data, pos) {
        None => None,
        Some((n, p)) => if n > usize::MAX {
            None
        } else {
            dec_group_list(data, p, n as int)
        },
    }
}

pub open spec fn dec_index(data: Seq<u8>, pos: int) -> Option<(IndexV, int)> {
    match dec_bytes(data, pos) {
        None => None,
        Some((source_file, p1)) => match dec_u32(data, p1) {
            None => None,
            Some((version, p2)) => match dec_byte(data, p2) {
                None => None,
                Some((tag_s, p3)) => if tag_s != 0 && tag_s != 1 {
                    None
                } else {
                    let seg_dec = if tag_s == 0 {
                        Some((None, p3))
                    } else {
                        match dec_seg_index(data, p3) {
                            None => None,
                            Some((s, p)) => Some((Some(s), p)),
                        }
                    };
                    match seg_dec {
                        None => None,
                        Some((segment_index, p4)) => match dec_byte(data, p4) {
                            None => None,
                            Some((tag_p, p5)) => if tag_p != 0 && tag_p != 1 {
                                None
                            } else {
                                let path_dec = if tag_p == 0 {
                                    Some((None, p5))
                                } else {
                                    match dec_path_index(data, p5) {
                                        None => None,
                                        Some((pi, p)) => Some((Some(pi), p)),
                                    }
                                };
                                match path_dec {
                                    None => None,
                                    Some((path_index, p6)) => match dec_byte(data, p6) {
                                        None => None,
                                        Some((tag_q, p7)) => if tag_q != 0 && tag_q != 1 {
                                            None
                                        } else {
                                            let pos_dec = if tag_q == 0 {
                                                Some((None, p7))
                                            } else {
                                                match dec_pos_index(data, p7) {
                                                    None => None,
                                                    Some((s, p)) => Some((Some(s), p)),
                                                }
                                            };
                                            match pos_dec {
                                                None => None,
                                                Some((position_index, p8)) => Some(
                                                    (
                                                        IndexV {
                                                            source_file,
                                                            version,
                                                            segment_index,
                                                            path_index,
                                                            position_index,
                                                        },
                                                        p8,
                                                    ),
                                                ),
                                            }
                                        },
                                    },
                                }
                            },
                        },
                    }
                },
            },
        },
    }
}

/// The kinds of failure a load can end in.
pub enum LoadErrV {
    /// The container is shorter than its framing says.
    Truncated,
    /// The magic constant is wrong: not an index file.
    BadMagic,
    /// The container's version is newer than this reader understands.
    BadVersion,
    /// The payload does not decode.
    Corrupt,
}

/// The complete model of loading: read and check the magic, read the
/// version and reject one too new, read the payload length, decode the
/// payload, and demand that it fill its length exactly.  Bytes after the
/// payload are ignored.
pub open spec fn spec_load(data: Seq<u8>) -> Result<IndexV, LoadErrV> {
    match dec_u64(data, 0) {
        None => Err(LoadErrV::Truncated),
        Some((magic, p1)) => if magic != INDEX_MAGIC {
            Err(LoadErrV::BadMagic)
        } else {
            match dec_u32(data, p1) {
                None => Err(LoadErrV::Truncated),
                Some((ver, p2)) => if ver > INDEX_VERSION {
                    Err(LoadErrV::BadVersion)
                } else {
                    match dec_u64(data, p2) {
                        None => Err(LoadErrV::Truncated),
                        Some((plen, p3)) => if p3 + plen > data.len() {
                            Err(LoadErrV::Truncated)
                        } else {
                            match dec_index(data, p3) {
                                None => Err(LoadErrV::Corrupt),
                                Some((v, p4)) => if p4 != p3 + plen {
                                    Err(LoadErrV::Corrupt)
                                } else {
                                    Ok(v)
                                },
                            }
                        },
                    }
                },
            }
        },
    }
}

/// Whether the error `e` is the one that the load model `k` calls for.
pub open spec fn load_err_matches(e: PgToolsError, k: LoadErrV) -> bool {
    match k {
        LoadErrV::Truncated => e matches PgToolsError::Io(m) && m@ == "Unexpected end of index file"@,
        LoadErrV::BadMagic => e matches PgToolsError::Index(m) && m@ == "Invalid index file format"@,
        LoadErrV::BadVersion => e matches PgToolsError::Index(m) && m@
            == "Index version not supported"@,
        LoadErrV::Corrupt => e matches PgToolsError::Serialization(m) && m@
            == "Corrupt index payload"@,
    }
}


// ------------------------------------------------------------------
// Executable decoders
// ------------------------------------------------------------------
/// Reads a little-endian 64-bit integer.
fn get_u64(data: &[u8], pos: usize) -> (r: Option<(u64, usize)>)
    ensures
        match dec_u64(data@, pos as int) {
            None => r is None,
            Some((x, p)) => (r matches Some(rr) && rr.0 == x && rr.1 == p),
        },
{
    if pos <= data.len() && data.len() - pos >= 8 {
        let piece = slice_subrange(data, pos, pos + 8);
        let x = u64_from_le_bytes(piece);
        Some((x, pos + 8))
    } else {
        None
    }
}

/// Reads a little-endian 32-bit integer.
fn get_u32(data: &[u8], pos: usize) -> (r: Option<(u32, usize)>)
    ensures
        match dec_u32(data@, pos as int) {
            None => r is None,
            Some((x, p)) => (r matches Some(rr) && rr.0 == x && rr.1 == p),
        },
{
    if pos <= data.len() && data.len() - pos >= 4 {
        let piece = slice_subrange(data, pos, pos + 4);
        let x = u32_from_le_bytes(piece);
        Some((x, pos + 4))
    } else {
        None
    }
}

/// Reads one byte.
fn get_byte(data: &[u8], pos: usize) -> (r: Option<(u8, usize)>)
    ensures
        match dec_byte(data@, pos as int) {
            None => r is None,
            Some((x, p)) => (r matches Some(rr) && rr.0 == x && rr.1 == p),
        },
{
    if pos < data.len() {
        Some((data[pos], pos + 1))
    } else {
        None
    }
}

/// Reads a length-prefixed byte string.
fn get_bytes(data: &[u8], pos: usize) -> (r: Option<(Vec<u8>, usize)>)
    ensures
        match dec_bytes(data@, pos as int) {
            None => r is None,
            Some((s, p)) => (r matches Some(rr) && rr.0@ == s && rr.1 == p),
        },
{
    match get_u64(data, pos) {
        None => None,
        Some((n, p)) => {
            if n <= (data.len() - p) as u64 {
                let end = p + (n as usize);
                let v = crate::text::sub_bytes(data, p, end);
                Some((v, end))
            } else {
                None
            }
        },
    }
}

/// Reads one segment-index entry.
fn get_seg_entry(data: &[u8], pos: usize) -> (r: Option<(SegmentIndexEntry, usize)>)
    ensures
        match dec_seg_entry(data@, pos as int) {
            None => r is None,
            Some((e, p)) => (r matches Some(rr) && rr.0@ == e && rr.1 == p),
        },
{
    match get_bytes(data, pos) {
        None => None,
        Some((name, p1)) => match get_u64(data, p1) {
            None => None,
            Some((sl, p2)) => {
                if sl > usize::MAX as u64 {
                    None
                } else {
                    match get_u64(data, p2) {
                        None => None,
                        Some((fo, p3)) => Some(
                            (
                                SegmentIndexEntry {
                                    name,
                                    sequence_length: sl as usize,
                                    file_offset: fo,
                                },
                                p3,
                            ),
                        ),
                    }
                }
            },
        },
    }
}

/// Reads one path-index entry.
fn get_path_entry(data: &[u8], pos: usize) -> (r: Option<(PathIndexEntry, usize)>)
    ensures
        match dec_path_entry(data@, pos as int) {
            None => r is None,
            Some((e, p)) => (r matches Some(rr) && rr.0@ == e && rr.1 == p),
        },
{
    match get_bytes(data, pos) {
        None => None,
        Some((name, p1)) => match get_u64(data, p1) {
            None => None,
            Some((sc, p2)) => {
                if sc > usize::MAX as u64 {
                    None
                } else {
                    match get_u64(data, p2) {
                        None => None,
                        Some((tl, p3)) => match get_u64(data, p3) {
                            None => None,
                            Some((fo, p4)) => Some(
                                (
                                    PathIndexEntry {
                                        name,
                                        step_count: sc as usize,
                                        total_length: tl,
                                        file_offset: fo,
                                    },
                                    p4,
                                ),
                            ),
                        },
                    }
                }
            },
        },
    }
}

/// Reads one position-index entry.
fn get_pos_entry(data: &[u8], pos: usize) -> (r: Option<(PositionIndexEntry, usize)>)
    ensures
        match dec_pos_entry(data@, pos as int) {
            None => r is None,
            Some((e, p)) => (r matches Some(rr) && rr.0@ == e && rr.1 == p),
        },
{
    match get_bytes(data, pos) {
        None => None,
        Some((path_name, p1)) => match get_u64(data, p1) {
            None => None,
            Some((start, p2)) => match get_u64(data, p2) {
                None => None,
                Some((end, p3)) => match get_bytes(data, p3) {
                    None => None,
                    Some((segment_name, p4)) => match get_u64(data, p4) {
                        None => None,
                        Some((si, p5)) => {
                            if si > usize::MAX as u64 {
                                None
                            } else {
                                Some(
                                    (
                                        PositionIndexEntry {
                                            path_name,
                                            start,
                                            end,
                                            segment_name,
                                            step_index: si as usize,
                                        },
                                        p5,
                                    ),
                                )
                            }
                        },
                    },
                },
            },
        },
    }
}

/// Reads `count` segment-index entries.
fn get_seg_list(data: &[u8], pos: usize, count: usize) -> (r: Option<(Vec<SegmentIndexEntry>, usize)>)
    ensures
        match dec_seg_list(data@, pos as int, count as int) {
            None => r is None,
            Some((s, p)) => (r matches Some(rr) && rr.0.deep_view() == s && rr.1 == p),
        },
{
    let mut acc: Vec<SegmentIndexEntry> = Vec::new();
    let mut cur: usize = pos;
    let mut idx: usize = 0;
    proof {
        assert(acc.deep_view() =~= Seq::<SegEntryV>::empty());
    }
    while idx < count
        invariant
            0 <= idx <= count,
            match dec_seg_list(data@, cur as int, count as int - idx as int) {
                None => dec_seg_list(data@, pos as int, count as int) is None,
                Some((rest, p)) => dec_seg_list(data@, pos as int, count as int) == Some(
                    (acc.deep_view() + rest, p),
                ),
            },
        decreases count - idx,
    {
        match get_seg_entry(data, cur) {
            None => {
                return None;
            },
            Some((e, p)) => {
                let ghost ev = e@;
                let ghost prev = acc.deep_view();
                acc.push(e);
                proof {
                    assert(acc.deep_view() =~= prev.push(ev));
                    match dec_seg_list(data@, p as int, count as int - idx as int - 1) {
                        Some((rest2, p2)) => {
                            assert(prev.push(ev) + rest2 =~= prev + (seq![ev] + rest2));
                        },
                        None => {},
                    }
                }
                cur = p;
            },
        }
        idx = idx + 1;
    }
    proof {
        assert(acc.deep_view() + Seq::<SegEntryV>::empty() =~= acc.deep_view());
    }
    Some((acc, cur))
}

/// Reads `count` path-index entries.
fn get_path_list(data: &[u8], pos: usize, count: usize) -> (r: Option<(Vec<PathIndexEntry>, usize)>)
    ensures
        match dec_path_list(data@, pos as int, count as int) {
            None => r is None,
            Some((s, p)) => (r matches Some(rr) && rr.0.deep_view() == s && rr.1 == p),
        },
{
    let mut acc: Vec<PathIndexEntry> = Vec::new();
    let mut cur: usize = pos;
    let mut idx: usize = 0;
    proof {
        assert(acc.deep_view() =~= Seq::<PathEntryV>::empty());
    }
    while idx < count
        invariant
            0 <= idx <= count,
            match dec_path_list(data@, cur as int, count as int - idx as int) {
                None => dec_path_list(data@, pos as int, count as int) is None,
                Some((rest, p)) => dec_path_list(data@, pos as int, count as int) == Some(
                    (acc.deep_view() + rest, p),
                ),
            },
        decreases count - idx,
    {
        match get_path_entry(data, cur) {
            None => {
                return None;
            },
            Some((e, p)) => {
                let ghost ev = e@;
                let ghost prev = acc.deep_view();
                acc.push(e);
                proof {
                    assert(acc.deep_view() =~= prev.push(ev));
                    match dec_path_list(data@, p as int, count as int - idx as int - 1) {
                        Some((rest2, p2)) => {
                            assert(prev.push(ev) + rest2 =~= prev + (seq![ev] + rest2));
                        },
                        None => {},
                    }
                }
                cur = p;
            },
        }
        idx = idx + 1;
    }
    proof {
        assert(acc.deep_view() + Seq::<PathEntryV>::empty() =~= acc.deep_view());
    }
    Some((acc, cur))
}

/// Reads `count` length-prefixed byte strings.
fn get_name_list(data: &[u8], pos: usize, count: usize) -> (r: Option<(Vec<Vec<u8>>, usize)>)
    ensures
        match dec_name_list(data@, pos as int, count as int) {
            None => r is None,
            Some((s, p)) => (r matches Some(rr) && rr.0.deep_view() == s && rr.1 == p),
        },
{
    let mut acc: Vec<Vec<u8>> = Vec::new();
    let mut cur: usize = pos;
    let mut idx: usize = 0;
    proof {
        assert(acc.deep_view() =~= Seq::<Seq<u8>>::empty());
    }
    while idx < count
        invariant
            0 <= idx <= count,
            match dec_name_list(data@, cur as int, count as int - idx as int) {
                None => dec_name_list(data@, pos as int, count as int) is None,
                Some((rest, p)) => dec_name_list(data@, pos as int, count as int) == Some(
                    (acc.deep_view() + rest, p),
                ),
            },
        decreases count - idx,
    {
        match get_bytes(data, cur) {
            None => {
                return None;
            },
            Some((v, p)) => {
                let ghost ev = v@;
                let ghost prev = acc.deep_view();
                acc.push(v);
                proof {
                    assert(acc.deep_view() =~~= prev.push(ev));
                    match dec_name_list(data@, p as int, count as int - idx as int - 1) {
                        Some((rest2, p2)) => {
                            assert(prev.push(ev) + rest2 =~= prev + (seq![ev] + rest2));
                        },
                        None => {},
                    }
                }
                cur = p;
            },
        }
        idx = idx + 1;
    }
    proof {
        assert(acc.deep_view() + Seq::<Seq<u8>>::empty() =~= acc.deep_view());
    }
    Some((acc, cur))
}

/// Reads `count` position-index entries.
fn get_pos_list(data: &[u8], pos: usize, count: usize) -> (r: Option<(Vec<PositionIndexEntry>, usize)>)
    ensures
        match dec_pos_list(data@, pos as int, count as int) {
            None => r is None,
            Some((s, p)) => (r matches Some(rr) && rr.0.deep_view() == s && rr.1 == p),
        },
{
    let mut acc: Vec<PositionIndexEntry> = Vec::new();
    let mut cur: usize = pos;
    let mut idx: usize = 0;
    proof {
        assert(acc.deep_view() =~= Seq::<PosEntryV>::empty());
    }
    while idx < count
        invariant
            0 <= idx <= count,
            match dec_pos_list(data@, cur as int, count as int - idx as int) {
                None => dec_pos_list(data@, pos as int, count as int) is None,
                Some((rest, p)) => dec_pos_list(data@, pos as int, count as int) == Some(
                    (acc.deep_view() + rest, p),
                ),
            },
        decreases count - idx,
    {
        match get_pos_entry(data, cur) {
            None => {
                return None;
            },
            Some((e, p)) => {
                let ghost ev = e@;
                let ghost prev = acc.deep_view();
                acc.push(e);
                proof {
                    assert(acc.deep_view() =~= prev.push(ev));
                    match dec_pos_list(data@, p as int, count as int - idx as int - 1) {
                        Some((rest2, p2)) => {
                            assert(prev.push(ev) + rest2 =~= prev + (seq![ev] + rest2));
                        },
                        None => {},
                    }
                }
                cur = p;
            },
        }
        idx = idx + 1;
    }
    proof {
        assert(acc.deep_view() + Seq::<PosEntryV>::empty() =~= acc.deep_view());
    }
    Some((acc, cur))
}

/// Reads one position group: a path name and its entries.
fn get_group(data: &[u8], pos: usize) -> (r: Option<((Vec<u8>, Vec<PositionIndexEntry>), usize)>)
    ensures
        match dec_group(data@, pos as int) {
            None => r is None,
            Some((g, p)) => (r matches Some(rr) && (rr.0.0@, rr.0.1.deep_view()) == g && rr.1
                == p),
        },
{
    match get_bytes(data, pos) {
        None => None,
        Some((name, p1)) => match get_u64(data, p1) {
            None => None,
            Some((n, p2)) => {
                if n > usize::MAX as u64 {
                    None
                } else {
                    match get_pos_list(data, p2, n as usize) {
                        None => None,
                        Some((entries, p3)) => Some(((name, entries), p3)),
                    }
                }
            },
        },
    }
}

/// Reads `count` position groups.
fn get_group_list(data: &[u8], pos: usize, count: usize) -> (r: Option<
    (Vec<(Vec<u8>, Vec<PositionIndexEntry>)>, usize),
>)
    ensures
        match dec_group_list(data@, pos as int, count as int) {
            None => r is None,
            Some((s, p)) => (r matches Some(rr) && crate::index::groups_view(rr.0@) == s && rr.1
                == p),
        },
{
    let mut acc: Vec<(Vec<u8>, Vec<PositionIndexEntry>)> = Vec::new();
    let mut cur: usize = pos;
    let mut idx: usize = 0;
    proof {
        assert(crate::index::groups_view(acc@) =~= Seq::<(Seq<u8>, Seq<PosEntryV>)>::empty());
    }
    while idx < count
        invariant
            0 <= idx <= count,
            match dec_group_list(data@, cur as int, count as int - idx as int) {
                None => dec_group_list(data@, pos as int, count as int) is None,
                Some((rest, p)) => dec_group_list(data@, pos as int, count as int) == Some(
                    (crate::index::groups_view(acc@) + rest, p),
                ),
            },
        decreases count - idx,
    {
        match get_group(data, cur) {
            None => {
                return None;
            },
            Some((g, p)) => {
                let ghost gv = (g.0@, g.1.deep_view());
                let ghost prev = crate::index::groups_view(acc@);
                acc.push(g);
                proof {
                    assert(crate::index::groups_view(acc@) =~= prev.push(gv));
                    match dec_group_list(data@, p as int, count as int - idx as int - 1) {
                        Some((rest2, p2)) => {
                            assert(prev.push(gv) + rest2 =~= prev + (seq![gv] + rest2));
                        },
                        None => {},
                    }
                }
                cur = p;
            },
        }
        idx = idx + 1;
    }
    proof {
        assert(crate::index::groups_view(acc@) + Seq::<(Seq<u8>, Seq<PosEntryV>)>::empty()
            =~= crate::index::groups_view(acc@));
    }
    Some((acc, cur))
}

/// Reads the whole payload.
fn get_index(data: &[u8], pos: usize) -> (r: Option<(GfaIndex, usize)>)
    ensures
        match dec_index(data@, pos as int) {
            None => r is None,
            Some((v, p)) => (r matches Some(rr) && rr.0@ == v && rr.1 == p),
        },
{
    match get_bytes(data, pos) {
        None => None,
        Some((source_file, p1)) => match get_u32(data, p1) {
            None => None,
            Some((version, p2)) => match get_byte(data, p2) {
                None => None,
                Some((tag_s, p3)) => {
                    if tag_s != 0 && tag_s != 1 {
                        return None;
                    }
                    let seg: Option<SegmentIndex>;
                    let p4: usize;
                    if tag_s == 0 {
                        seg = None;
                        p4 = p3;
                    } else {
                        match get_u64(data, p3) {
                            None => {
                                return None;
                            },
                            Some((n, pp)) => {
                                if n > usize::MAX as u64 {
                                    return None;
                                }
                                match get_seg_list(data, pp, n as usize) {
                                    None => {
                                        return None;
                                    },
                                    Some((entries, pq)) => {
                                        seg = Some(SegmentIndex { entries });
                                        p4 = pq;
                                    },
                                }
                            },
                        }
                    }
                    let path: Option<PathIndex>;
                    let p6: usize;
                    match get_byte(data, p4) {
                        None => {
                            return None;
                        },
                        Some((tag_p, p5)) => {
                            if tag_p != 0 && tag_p != 1 {
                                return None;
                            }
                            if tag_p == 0 {
                                path = None;
                                p6 = p5;
                            } else {
                                match get_u64(data, p5) {
                                    None => {
                                        return None;
                                    },
                                    Some((n, pp)) => {
                                        if n > usize::MAX as u64 {
                                            return None;
                                        }
                                        match get_path_list(data, pp, n as usize) {
                                            None => {
                                                return None;
                                            },
                                            Some((entries, pq)) => match get_u64(data, pq) {
                                                None => {
                                                    return None;
                                                },
                                                Some((m, pr)) => {
                                                    if m > usize::MAX as u64 {
                                                        return None;
                                                    }
                                                    match get_name_list(data, pr, m as usize) {
                                                        None => {
                                                            return None;
                                                        },
                                                        Some((path_names, ps)) => {
                                                            path = Some(
                                                                PathIndex { entries, path_names },
                                                            );
                                                            p6 = ps;
                                                        },
                                                    }
                                                },
                                            },
                                        }
                                    },
                                }
                            }
                        },
                    }
                    let posi: Option<PositionIndex>;
                    let p8: usize;
                    match get_byte(data, p6) {
                        None => {
                            return None;
                        },
                        Some((tag_q, p7)) => {
                            if tag_q != 0 && tag_q != 1 {
                                return None;
                            }
                            if tag_q == 0 {
                                posi = None;
                                p8 = p7;
                            } else {
                                match get_u64(data, p7) {
                                    None => {
                                        return None;
                                    },
                                    Some((n, pp)) => {
                                        if n > usize::MAX as u64 {
                                            return None;
                                        }
                                        match get_group_list(data, pp, n as usize) {
                                            None => {
                                                return None;
                                            },
                                            Some((entries, pq)) => {
                                                posi = Some(PositionIndex { entries });
                                                p8 = pq;
                                            },
                                        }
                                    },
                                }
                            }
                        },
                    }
                    Some(
                        (
                            GfaIndex {
                                source_file,
                                version,
                                segment_index: seg,
                                path_index: path,
                                position_index: posi,
                            },
                            p8,
                        ),
                    )
                },
            },
        },
    }
}

impl GfaIndex {
    /// Loads an index from the bytes of its container: the magic constant
    /// is checked, a version newer than this reader understands is
    /// rejected, and the payload must decode and fill its recorded length
    /// exactly; trailing bytes after the payload are ignored.
    pub fn from_bytes(data: &[u8]) -> (r: Result<GfaIndex, PgToolsError>)
        ensures
            spec_load(data@) matches Ok(v) ==> (r matches Ok(idx) && idx@ == v),
            spec_load(data@) matches Err(k) ==> (r matches Err(e) && load_err_matches(e, k)),
    {
        let (magic, p1) = match get_u64(data, 0) {
            None => {
                return Err(PgToolsError::Io("Unexpected end of index file".to_owned()));
            },
            Some(x) => x,
        };
        if magic != INDEX_MAGIC {
            return Err(PgToolsError::Index("Invalid index file format".to_owned()));
        }
        let (ver, p2) = match get_u32(data, p1) {
            None => {
                return Err(PgToolsError::Io("Unexpected end of index file".to_owned()));
            },
            Some(x) => x,
        };
        if ver > INDEX_VERSION {
            return Err(PgToolsError::Index("Index version not supported".to_owned()));
        }
        let (plen, p3) = match get_u64(data, p2) {
            None => {
                return Err(PgToolsError::Io("Unexpected end of index file".to_owned()));
            },
            Some(x) => x,
        };
        if plen > (data.len() - p3) as u64 {
            return Err(PgToolsError::Io("Unexpected end of index file".to_owned()));
        }
        match get_index(data, p3) {
            None => Err(PgToolsError::Serialization("Corrupt index payload".to_owned())),
            Some((idx, p4)) => {
                if p4 < p3 || (p4 - p3) as u64 != plen {
                    return Err(PgToolsError::Serialization("Corrupt index payload".to_owned()));
                }
                Ok(idx)
            },
        }
    }
}


// ------------------------------------------------------------------
// Decoding inverts encoding
// ------------------------------------------------------------------
/// Splitting a known concatenation of two pieces out of `data`.
pub proof fn lemma_split_at(data: Seq<u8>, pos: int, a: Seq<u8>, b: Seq<u8>)
    requires
        0 <= pos,
        pos + a.len() + b.len() <= data.len(),
        data.subrange(pos, pos + a.len() + b.len()) == a + b,
    ensures
        data.subrange(pos, pos + a.len()) == a,
        data.subrange(pos + a.len(), pos + a.len() + b.len()) == b,
{
    assert forall|i: int| 0 <= i < a.len() implies data.subrange(pos, pos + a.len())[i] == a[i] by {
        assert(data.subrange(pos, pos + a.len() + b.len())[i] == (a + b)[i]);
    }
    assert(data.subrange(pos, pos + a.len()) =~= a);
    assert forall|i: int|
        0 <= i < b.len() implies data.subrange(pos + a.len(), pos + a.len() + b.len())[i]
        == b[i] by {
        assert(data.subrange(pos, pos + a.len() + b.len())[a.len() + i] == (a + b)[a.len() + i]);
        assert((a + b)[a.len() + i] == b[i]);
        assert(data.subrange(pos + a.len(), pos + a.len() + b.len())[i] == data[pos + a.len() + i]);
        assert(data.subrange(pos, pos + a.len() + b.len())[a.len() + i] == data[pos + a.len()
            + i]);
    }
    assert(data.subrange(pos + a.len(), pos + a.len() + b.len()) =~= b);
}

pub proof fn lemma_dec_u64_enc(data: Seq<u8>, pos: int, x: u64)
    requires
        0 <= pos,
        pos + 8 <= data.len(),
        data.subrange(pos, pos + 8) == enc_u64(x),
    ensures
        dec_u64(data, pos) == Some((x, pos + 8)),
{
    lemma_auto_spec_u64_to_from_le_bytes();
}

pub proof fn lemma_dec_u32_enc(data: Seq<u8>, pos: int, x: u32)
    requires
        0 <= pos,
        pos + 4 <= data.len(),
        data.subrange(pos, pos + 4) == enc_u32(x),
    ensures
        dec_u32(data, pos) == Some((x, pos + 4)),
{
    lemma_auto_spec_u32_to_from_le_bytes();
    assert(spec_u32_to_le_bytes(x).len() == 4);
    assert(spec_u32_from_le_bytes(spec_u32_to_le_bytes(x)) == x);
}

pub proof fn lemma_dec_byte_enc(data: Seq<u8>, pos: int, x: u8)
    requires
        0 <= pos,
        pos + 1 <= data.len(),
        data.subrange(pos, pos + 1) == seq![x],
    ensures
        dec_byte(data, pos) == Some((x, pos + 1)),
{
    assert(data[pos] == data.subrange(pos, pos + 1)[0]);
}

pub proof fn lemma_dec_bytes_enc(data: Seq<u8>, pos: int, s: Seq<u8>)
    requires
        s.len() <= u64::MAX,
        0 <= pos,
        pos + enc_bytes(s).len() <= data.len(),
        data.subrange(pos, pos + enc_bytes(s).len()) == enc_bytes(s),
    ensures
        enc_bytes(s).len() == 8 + s.len(),
        dec_bytes(data, pos) == Some((s, pos + 8 + s.len())),
{
    lemma_auto_spec_u64_to_from_le_bytes();
    let n = s.len() as u64;
    assert(enc_u64(n).len() == 8);
    lemma_split_at(data, pos, enc_u64(n), s);
    lemma_dec_u64_enc(data, pos, n);
}

pub proof fn lemma_dec_seg_entry_enc(data: Seq<u8>, pos: int, e: SegEntryV)
    requires
        e.name.len() <= u64::MAX,
        0 <= pos,
        pos + enc_seg_entry(e).len() <= data.len(),
        data.subrange(pos, pos + enc_seg_entry(e).len()) == enc_seg_entry(e),
    ensures
        dec_seg_entry(data, pos) == Some((e, pos + enc_seg_entry(e).len())),
{
    lemma_auto_spec_u64_to_from_le_bytes();
    let a = enc_bytes(e.name);
    let b = enc_u64(e.sequence_length as u64);
    let c = enc_u64(e.file_offset);
    assert(data.subrange(pos, pos + (a.len() + (b.len() + c.len()))) == a + (b + c)) by {
        assert(a + (b + c) =~= (a + b) + c);
    };
    lemma_split_at(data, pos, a, b + c);
    lemma_split_at(data, pos + a.len(), b, c);
    lemma_dec_bytes_enc(data, pos, e.name);
    let p1 = pos + a.len();
    lemma_dec_u64_enc(data, p1, e.sequence_length as u64);
    lemma_dec_u64_enc(data, p1 + 8, e.file_offset);
}

pub open spec fn seg_list_wf(s: Seq<SegEntryV>) -> bool {
    s.len() <= usize::MAX && forall|i: int|
        0 <= i < s.len() ==> (#[trigger] s[i]).name.len() <= u64::MAX
}

pub proof fn lemma_dec_seg_list_enc(data: Seq<u8>, pos: int, s: Seq<SegEntryV>)
    requires
        seg_list_wf(s),
        0 <= pos,
        pos + enc_seg_list(s).len() <= data.len(),
        data.subrange(pos, pos + enc_seg_list(s).len()) == enc_seg_list(s),
    ensures
        dec_seg_list(data, pos, s.len() as int) == Some((s, pos + enc_seg_list(s).len())),
    decreases s.len(),
{
    if s.len() == 0 {
        assert(enc_seg_list(s).len() == 0);
        assert(Seq::<SegEntryV>::empty() =~= s);
    } else {
        let a = enc_seg_entry(s[0]);
        let b = enc_seg_list(s.drop_first());
        lemma_split_at(data, pos, a, b);
        lemma_dec_seg_entry_enc(data, pos, s[0]);
        assert(forall|j: int|
            0 <= j < s.drop_first().len() ==> #[trigger] s.drop_first()[j] == s[j + 1]);
        lemma_dec_seg_list_enc(data, pos + a.len(), s.drop_first());
        assert(seq![s[0]] + s.drop_first() =~= s);
    }
}

pub proof fn lemma_dec_seg_index_enc(data: Seq<u8>, pos: int, s: Seq<SegEntryV>)
    requires
        seg_list_wf(s),
        0 <= pos,
        pos + enc_seg_index(s).len() <= data.len(),
        data.subrange(pos, pos + enc_seg_index(s).len()) == enc_seg_index(s),
    ensures
        dec_seg_index(data, pos) == Some((s, pos + enc_seg_index(s).len())),
{
    lemma_auto_spec_u64_to_from_le_bytes();
    let a = enc_u64(s.len() as u64);
    let b = enc_seg_list(s);
    lemma_split_at(data, pos, a, b);
    lemma_dec_u64_enc(data, pos, s.len() as u64);
    lemma_dec_seg_list_enc(data, pos + 8, s);
}

pub proof fn lemma_dec_path_entry_enc(data: Seq<u8>, pos: int, e: PathEntryV)
    requires
        e.name.len() <= u64::MAX,
        0 <= pos,
        pos + enc_path_entry(e).len() <= data.len(),
        data.subrange(pos, pos + enc_path_entry(e).len()) == enc_path_entry(e),
    ensures
        dec_path_entry(data, pos) == Some((e, pos + enc_path_entry(e).len())),
{
    lemma_auto_spec_u64_to_from_le_bytes();
    let a = enc_bytes(e.name);
    let b = enc_u64(e.step_count as u64);
    let c = enc_u64(e.total_length);
    let d = enc_u64(e.file_offset);
    assert(data.subrange(pos, pos + (a.len() + (b.len() + (c.len() + d.len())))) == a + (b + (c
        + d))) by {
        assert(a + (b + (c + d)) =~= ((a + b) + c) + d);
    };
    lemma_split_at(data, pos, a, b + (c + d));
    lemma_split_at(data, pos + a.len(), b, c + d);
    lemma_split_at(data, pos + a.len() + b.len(), c, d);
    lemma_dec_bytes_enc(data, pos, e.name);
    let p1 = pos + a.len();
    lemma_dec_u64_enc(data, p1, e.step_count as u64);
    lemma_dec_u64_enc(data, p1 + 8, e.total_length);
    lemma_dec_u64_enc(data, p1 + 16, e.file_offset);
}

pub open spec fn path_list_wf(s: Seq<PathEntryV>) -> bool {
    s.len() <= usize::MAX && forall|i: int|
        0 <= i < s.len() ==> (#[trigger] s[i]).name.len() <= u64::MAX
}

pub proof fn lemma_dec_path_list_enc(data: Seq<u8>, pos: int, s: Seq<PathEntryV>)
    requires
        path_list_wf(s),
        0 <= pos,
        pos + enc_path_list(s).len() <= data.len(),
        data.subrange(pos, pos + enc_path_list(s).len()) == enc_path_list(s),
    ensures
        dec_path_list(data, pos, s.len() as int) == Some((s, pos + enc_path_list(s).len())),
    decreases s.len(),
{
    if s.len() == 0 {
        assert(enc_path_list(s).len() == 0);
        assert(Seq::<PathEntryV>::empty() =~= s);
    } else {
        let a = enc_path_entry(s[0]);
        let b = enc_path_list(s.drop_first());
        lemma_split_at(data, pos, a, b);
        lemma_dec_path_entry_enc(data, pos, s[0]);
        assert(forall|j: int|
            0 <= j < s.drop_first().len() ==> #[trigger] s.drop_first()[j] == s[j + 1]);
        lemma_dec_path_list_enc(data, pos + a.len(), s.drop_first());
        assert(seq![s[0]] + s.drop_first() =~= s);
    }
}

pub open spec fn name_list_wf(s: Seq<Seq<u8>>) -> bool {
    s.len() <= usize::MAX && forall|i: int| 0 <= i < s.len() ==> (#[trigger] s[i]).len() <= u64::MAX
}

pub proof fn lemma_dec_name_list_enc(data: Seq<u8>, pos: int, s: Seq<Seq<u8>>)
    requires
        name_list_wf(s),
        0 <= pos,
        pos + enc_name_list(s).len() <= data.len(),
        data.subrange(pos, pos + enc_name_list(s).len()) == enc_name_list(s),
    ensures
        dec_name_list(data, pos, s.len() as int) == Some((s, pos + enc_name_list(s).len())),
    decreases s.len(),
{
    if s.len() == 0 {
        assert(enc_name_list(s).len() == 0);
        assert(Seq::<Seq<u8>>::empty() =~= s);
    } else {
        let a = enc_bytes(s[0]);
        let b = enc_name_list(s.drop_first());
        lemma_split_at(data, pos, a, b);
        lemma_dec_bytes_enc(data, pos, s[0]);
        assert(forall|j: int|
            0 <= j < s.drop_first().len() ==> #[trigger] s.drop_first()[j] == s[j + 1]);
        lemma_dec_name_list_enc(data, pos + a.len(), s.drop_first());
        assert(seq![s[0]] + s.drop_first() =~= s);
    }
}

pub proof fn lemma_dec_path_index_enc(data: Seq<u8>, pos: int, pi: PathIndexV)
    requires
        path_list_wf(pi.entries),
        name_list_wf(pi.path_names),
        0 <= pos,
        pos + enc_path_index(pi).len() <= data.len(),
        data.subrange(pos, pos + enc_path_index(pi).len()) == enc_path_index(pi),
    ensures
        dec_path_index(data, pos) == Some((pi, pos + enc_path_index(pi).len())),
{
    lemma_auto_spec_u64_to_from_le_bytes();
    let a = enc_u64(pi.entries.len() as u64);
    let b = enc_path_list(pi.entries);
    let c = enc_u64(pi.path_names.len() as u64);
    let d = enc_name_list(pi.path_names);
    assert(data.subrange(pos, pos + (a.len() + (b.len() + (c.len() + d.len())))) == a + (b + (c
        + d))) by {
        assert(a + (b + (c + d)) =~= ((a + b) + c) + d);
    };
    lemma_split_at(data, pos, a, b + (c + d));
    lemma_split_at(data, pos + a.len(), b, c + d);
    lemma_split_at(data, pos + a.len() + b.len(), c, d);
    lemma_dec_u64_enc(data, pos, pi.entries.len() as u64);
    lemma_dec_path_list_enc(data, pos + 8, pi.entries);
    lemma_dec_u64_enc(data, pos + 8 + b.len(), pi.path_names.len() as u64);
    lemma_dec_name_list_enc(data, pos + 8 + b.len() + 8, pi.path_names);
}

pub proof fn lemma_dec_pos_entry_enc(data: Seq<u8>, pos: int, e: PosEntryV)
    requires
        e.path_name.len() <= u64::MAX,
        e.segment_name.len() <= u64::MAX,
        0 <= pos,
        pos + enc_pos_entry(e).len() <= data.len(),
        data.subrange(pos, pos + enc_pos_entry(e).len()) == enc_pos_entry(e),
    ensures
        dec_pos_entry(data, pos) == Some((e, pos + enc_pos_entry(e).len())),
{
    lemma_auto_spec_u64_to_from_le_bytes();
    let a = enc_bytes(e.path_name);
    let b = enc_u64(e.start);
    let c = enc_u64(e.end);
    let d = enc_bytes(e.segment_name);
    let f = enc_u64(e.step_index as u64);
    assert(data.subrange(pos, pos + (a.len() + (b.len() + (c.len() + (d.len() + f.len()))))) == a
        + (b + (c + (d + f)))) by {
        assert(a + (b + (c + (d + f))) =~= (((a + b) + c) + d) + f);
    };
    lemma_split_at(data, pos, a, b + (c + (d + f)));
    lemma_split_at(data, pos + a.len(), b, c + (d + f));
    lemma_split_at(data, pos + a.len() + b.len(), c, d + f);
    lemma_split_at(data, pos + a.len() + b.len() + c.len(), d, f);
    lemma_dec_bytes_enc(data, pos, e.path_name);
    let p1 = pos + a.len();
    lemma_dec_u64_enc(data, p1, e.start);
    lemma_dec_u64_enc(data, p1 + 8, e.end);
    lemma_dec_bytes_enc(data, p1 + 16, e.segment_name);
    lemma_dec_u64_enc(data, p1 + 16 + d.len(), e.step_index as u64);
}

pub open spec fn pos_list_wf(s: Seq<PosEntryV>) -> bool {
    s.len() <= usize::MAX && forall|i: int|
        0 <= i < s.len() ==> {
            &&& (#[trigger] s[i]).path_name.len() <= u64::MAX
            &&& s[i].segment_name.len() <= u64::MAX
        }
}

pub proof fn lemma_dec_pos_list_enc(data: Seq<u8>, pos: int, s: Seq<PosEntryV>)
    requires
        pos_list_wf(s),
        0 <= pos,
        pos + enc_pos_list(s).len() <= data.len(),
        data.subrange(pos, pos + enc_pos_list(s).len()) == enc_pos_list(s),
    ensures
        dec_pos_list(data, pos, s.len() as int) == Some((s, pos + enc_pos_list(s).len())),
    decreases s.len(),
{
    if s.len() == 0 {
        assert(enc_pos_list(s).len() == 0);
        assert(Seq::<PosEntryV>::empty() =~= s);
    } else {
        let a = enc_pos_entry(s[0]);
        let b = enc_pos_list(s.drop_first());
        lemma_split_at(data, pos, a, b);
        lemma_dec_pos_entry_enc(data, pos, s[0]);
        assert(forall|j: int|
            0 <= j < s.drop_first().len() ==> #[trigger] s.drop_first()[j] == s[j + 1]);
        lemma_dec_pos_list_enc(data, pos + a.len(), s.drop_first());
        assert(seq![s[0]] + s.drop_first() =~= s);
    }
}

pub proof fn lemma_dec_group_enc(data: Seq<u8>, pos: int, gr: (Seq<u8>, Seq<PosEntryV>))
    requires
        gr.0.len() <= u64::MAX,
        pos_list_wf(gr.1),
        0 <= pos,
        pos + enc_group(gr).len() <= data.len(),
        data.subrange(pos, pos + enc_group(gr).len()) == enc_group(gr),
    ensures
        dec_group(data, pos) == Some((gr, pos + enc_group(gr).len())),
{
    lemma_auto_spec_u64_to_from_le_bytes();
    let a = enc_bytes(gr.0);
    let b = enc_u64(gr.1.len() as u64);
    let c = enc_pos_list(gr.1);
    assert(data.subrange(pos, pos + (a.len() + (b.len() + c.len()))) == a + (b + c)) by {
        assert(a + (b + c) =~= (a + b) + c);
    };
    lemma_split_at(data, pos, a, b + c);
    lemma_split_at(data, pos + a.len(), b, c);
    lemma_dec_bytes_enc(data, pos, gr.0);
    let p1 = pos + a.len();
    lemma_dec_u64_enc(data, p1, gr.1.len() as u64);
    lemma_dec_pos_list_enc(data, p1 + 8, gr.1);
}

pub open spec fn group_list_wf(s: Seq<(Seq<u8>, Seq<PosEntryV>)>) -> bool {
    s.len() <= usize::MAX && forall|i: int|
        0 <= i < s.len() ==> {
            &&& (#[trigger] s[i]).0.len() <= u64::MAX
            &&& pos_list_wf(s[i].1)
        }
}

pub proof fn lemma_dec_group_list_enc(data: Seq<u8>, pos: int, s: Seq<(Seq<u8>, Seq<PosEntryV>)>)
    requires
        group_list_wf(s),
        0 <= pos,
        pos + enc_group_list(s).len() <= data.len(),
        data.subrange(pos, pos + enc_group_list(s).len()) == enc_group_list(s),
    ensures
        dec_group_list(data, pos, s.len() as int) == Some((s, pos + enc_group_list(s).len())),
    decreases s.len(),
{
    if s.len() == 0 {
        assert(enc_group_list(s).len() == 0);
        assert(Seq::<(Seq<u8>, Seq<PosEntryV>)>::empty() =~= s);
    } else {
        let a = enc_group(s[0]);
        let b = enc_group_list(s.drop_first());
        lemma_split_at(data, pos, a, b);
        lemma_dec_group_enc(data, pos, s[0]);
        assert(forall|j: int|
            0 <= j < s.drop_first().len() ==> #[trigger] s.drop_first()[j] == s[j + 1]);
        lemma_dec_group_list_enc(data, pos + a.len(), s.drop_first());
        assert(seq![s[0]] + s.drop_first() =~= s);
    }
}

pub proof fn lemma_dec_pos_index_enc(data: Seq<u8>, pos: int, s: Seq<(Seq<u8>, Seq<PosEntryV>)>)
    requires
        group_list_wf(s),
        0 <= pos,
        pos + enc_pos_index(s).len() <= data.len(),
        data.subrange(pos, pos + enc_pos_index(s).len()) == enc_pos_index(s),
    ensures
        dec_pos_index(data, pos) == Some((s, pos + enc_pos_index(s).len())),
{
    lemma_auto_spec_u64_to_from_le_bytes();
    let a = enc_u64(s.len() as u64);
    let b = enc_group_list(s);
    lemma_split_at(data, pos, a, b);
    lemma_dec_u64_enc(data, pos, s.len() as u64);
    lemma_dec_group_list_enc(data, pos + 8, s);
}

#[verifier::rlimit(80)]
pub proof fn lemma_dec_index_enc(data: Seq<u8>, pos: int, v: IndexV)
    requires
        index_enc_wf(v),
        0 <= pos,
        pos + enc_index(v).len() <= data.len(),
        data.subrange(pos, pos + enc_index(v).len()) == enc_index(v),
    ensures
        dec_index(data, pos) == Some((v, pos + enc_index(v).len())),
{
    lemma_auto_spec_u64_to_from_le_bytes();
    lemma_auto_spec_u32_to_from_le_bytes();
    let a = enc_bytes(v.source_file);
    let b = enc_u32(v.version);
    let c = enc_opt_seg(v.segment_index);
    let d = enc_opt_path(v.path_index);
    let f = enc_opt_pos(v.position_index);
    assert(data.subrange(pos, pos + (a.len() + (b.len() + (c.len() + (d.len() + f.len()))))) == a
        + (b + (c + (d + f)))) by {
        assert(a + (b + (c + (d + f))) =~= (((a + b) + c) + d) + f);
    };
    lemma_split_at(data, pos, a, b + (c + (d + f)));
    lemma_split_at(data, pos + a.len(), b, c + (d + f));
    lemma_split_at(data, pos + a.len() + b.len(), c, d + f);
    lemma_split_at(data, pos + a.len() + b.len() + c.len(), d, f);
    lemma_dec_bytes_enc(data, pos, v.source_file);
    let p1 = pos + a.len();
    lemma_dec_u32_enc(data, p1, v.version);
    let p2 = p1 + 4;
    // the segment-index option
    match v.segment_index {
        None => {
            assert(c =~= seq![0u8]);
            lemma_dec_byte_enc(data, p2, 0);
        },
        Some(si) => {
            assert(data.subrange(p2, p2 + (1 + enc_seg_index(si).len())) == seq![1u8]
                + enc_seg_index(si));
            lemma_split_at(data, p2, seq![1u8], enc_seg_index(si));
            lemma_dec_byte_enc(data, p2, 1);
            lemma_dec_seg_index_enc(data, p2 + 1, si);
        },
    }
    let p3 = p2 + c.len();
    match v.path_index {
        None => {
            assert(d =~= seq![0u8]);
            lemma_dec_byte_enc(data, p3, 0);
        },
        Some(pi) => {
            assert(data.subrange(p3, p3 + (1 + enc_path_index(pi).len())) == seq![1u8]
                + enc_path_index(pi));
            lemma_split_at(data, p3, seq![1u8], enc_path_index(pi));
            lemma_dec_byte_enc(data, p3, 1);
            lemma_dec_path_index_enc(data, p3 + 1, pi);
        },
    }
    let p4 = p3 + d.len();
    match v.position_index {
        None => {
            assert(f =~= seq![0u8]);
            lemma_dec_byte_enc(data, p4, 0);
        },
        Some(s) => {
            assert(data.subrange(p4, p4 + (1 + enc_pos_index(s).len())) == seq![1u8]
                + enc_pos_index(s));
            lemma_split_at(data, p4, seq![1u8], enc_pos_index(s));
            lemma_dec_byte_enc(data, p4, 1);
            lemma_dec_pos_index_enc(data, p4 + 1, s);
        },
    }
}

/// Round trip of the persisted container: for any index model within the
/// encoder's bounds — bounds every index held in memory satisfies —
/// loading the saved container gives back exactly the same index, with the
/// same sub-index contents.
pub proof fn lemma_save_load_round_trip(v: IndexV)
    requires
        index_enc_wf(v),
        enc_index(v).len() <= u64::MAX,
        v.version <= INDEX_VERSION,
    ensures
        spec_load(spec_container(v)) == Ok::<IndexV, LoadErrV>(v),
{
    lemma_auto_spec_u64_to_from_le_bytes();
    lemma_auto_spec_u32_to_from_le_bytes();
    let data = spec_container(v);
    let m = enc_u64(INDEX_MAGIC);
    let w = enc_u32(v.version);
    let l = enc_u64(enc_index(v).len() as u64);
    let pl = enc_index(v);
    assert(data.subrange(0, 0int + (m.len() + (w.len() + (l.len() + pl.len())))) == m + (w + (l
        + pl))) by {
        assert(data =~= data.subrange(0, data.len() as int));
        assert(m + (w + (l + pl)) =~= ((m + w) + l) + pl);
    };
    lemma_split_at(data, 0, m, w + (l + pl));
    lemma_split_at(data, 8, w, l + pl);
    lemma_split_at(data, 12, l, pl);
    lemma_dec_u64_enc(data, 0, INDEX_MAGIC);
    lemma_dec_u32_enc(data, 8, v.version);
    lemma_dec_u64_enc(data, 12, enc_index(v).len() as u64);
    lemma_dec_index_enc(data, 20, v);
}

/// Law: for any graph, provenance string and index variant, loading the
/// saved container of the built index reproduces the same sub-index
/// contents as the build itself.  The bounds asked for hold of everything
/// a machine can represent.
pub proof fn lemma_build_save_load(g: crate::gfa::GraphV, source: Seq<u8>, t: IndexType)
    requires
        index_enc_wf(crate::index::spec_build(g, source, t)),
        enc_index(crate::index::spec_build(g, source, t)).len() <= u64::MAX,
    ensures
        spec_load(spec_container(crate::index::spec_build(g, source, t)))
            == Ok::<IndexV, LoadErrV>(crate::index::spec_build(g, source, t)),
{
    lemma_save_load_round_trip(crate::index::spec_build(g, source, t));
}

} // verus!