//! The Sans-IO reader: it caches the chunks it is given, asks for the byte
//! ranges it still lacks, and parses the directory chain once it has them.
use vstd::prelude::*;

use crate::error::Error;
use crate::format::{
    le_u16, le_u32, le_u64, lemma_le_u16_bounds, lemma_le_u64_bounds, read_u16, read_u32, read_u64, spec_tile_grid,
    tile_count, ENTRY_LEN, TAG_BITS, TAG_CHANNELS, TAG_CODEC, TAG_COLOR, TAG_HEIGHT, TAG_INTERLEAVE, TAG_TILE_COUNTS,
    TAG_TILE_HEIGHT, TAG_TILE_OFFSETS, TAG_TILE_WIDTH, TAG_WIDTH, TAG_YCBCR_SUBSAMPLING, TYPE_U16, TYPE_U32,
    TYPE_U64,
};
use crate::model::{
    codec_of_code, color_model_of_code, spec_classify, Chunk, ChunkModel, Codec, ColorModel, Level, LevelModel, Request, Zif,
    ZifModel, ZifView,
};

verus! {

/// A run of known file bytes, as plain values.
pub struct Segment {
    pub start: int,
    pub bytes: Seq<u8>,
}

impl Segment {
    pub open spec fn end(self) -> int {
        self.start + self.bytes.len()
    }

    pub open spec fn covers(self, p: int) -> bool {
        self.start <= p < self.end()
    }

    pub open spec fn contains_range(self, lo: int, hi: int) -> bool {
        self.start <= lo && lo <= hi && hi <= self.end()
    }
}

/// Runs are non-empty, fit in 64-bit offsets, are sorted, and neither
/// overlap nor touch (touching runs are merged).
pub open spec fn cache_wf(segs: Seq<Segment>) -> bool {
    &&& forall|i: int| 0 <= i < segs.len() ==> (#[trigger] segs[i]).bytes.len() > 0 && 0 <= segs[i].start
        && segs[i].end() <= u64::MAX
    &&& forall|i: int, j: int| 0 <= i < j < segs.len() ==> (#[trigger] segs[i]).end() < (#[trigger] segs[j]).start
}

/// The known byte at file position `p`, if any run covers it.
pub open spec fn byte_at(segs: Seq<Segment>, p: int) -> Option<u8> {
    if exists|i: int| 0 <= i < segs.len() && (#[trigger] segs[i]).covers(p) {
        let i = choose|i: int| 0 <= i < segs.len() && (#[trigger] segs[i]).covers(p);
        Some(segs[i].bytes[p - segs[i].start])
    } else {
        None
    }
}

/// The bytes of `lo..hi` when a single run holds all of them.
pub open spec fn lookup(segs: Seq<Segment>, lo: int, hi: int) -> Option<Seq<u8>> {
    if exists|i: int| 0 <= i < segs.len() && (#[trigger] segs[i]).contains_range(lo, hi) {
        let i = choose|i: int| 0 <= i < segs.len() && (#[trigger] segs[i]).contains_range(lo, hi);
        Some(segs[i].bytes.subrange(lo - segs[i].start, hi - segs[i].start))
    } else {
        None
    }
}

/// In a well-formed cache the run covering a position is the only one.
pub proof fn lemma_byte_at_unique(segs: Seq<Segment>, i: int, p: int)
    requires
        cache_wf(segs),
        0 <= i < segs.len(),
        segs[i].covers(p),
    ensures
        byte_at(segs, p) == Some(segs[i].bytes[p - segs[i].start]),
{
    let j = choose|j: int| 0 <= j < segs.len() && (#[trigger] segs[j]).covers(p);
    if j < i {
        assert(segs[j].end() < segs[i].start);
    } else if i < j {
        assert(segs[i].end() < segs[j].start);
    }
}

/// In a well-formed cache the run holding a range is the only one.
pub proof fn lemma_lookup_unique(segs: Seq<Segment>, i: int, lo: int, hi: int)
    requires
        cache_wf(segs),
        0 <= i < segs.len(),
        segs[i].contains_range(lo, hi),
    ensures
        lookup(segs, lo, hi) == Some(segs[i].bytes.subrange(lo - segs[i].start, hi - segs[i].start)),
{
    let j = choose|j: int| 0 <= j < segs.len() && (#[trigger] segs[j]).contains_range(lo, hi);
    if j < i {
        assert(segs[j].end() < segs[i].start);
    } else if i < j {
        assert(segs[i].end() < segs[j].start);
    }
}

/// In a well-formed cache a range is held by one run exactly when every
/// byte of it is known, and the bytes are then the known bytes.
pub proof fn lemma_lookup_is_known_bytes(segs: Seq<Segment>, lo: int, hi: int)
    requires
        cache_wf(segs),
        lo < hi,
    ensures
        lookup(segs, lo, hi) is Some <==> forall|p: int| lo <= p < hi ==> #[trigger] byte_at(segs, p) is Some,
        lookup(segs, lo, hi) matches Some(s) ==> s.len() == hi - lo && forall|k: int|
            0 <= k < hi - lo ==> byte_at(segs, lo + k) == Some(#[trigger] s[k]),
{
    if lookup(segs, lo, hi) is Some {
        let i = choose|i: int| 0 <= i < segs.len() && (#[trigger] segs[i]).contains_range(lo, hi);
        assert forall|p: int| lo <= p < hi implies #[trigger] byte_at(segs, p) is Some by {
            lemma_byte_at_unique(segs, i, p);
        }
        let s = lookup(segs, lo, hi).unwrap();
        assert forall|k: int| 0 <= k < hi - lo implies byte_at(segs, lo + k) == Some(#[trigger] s[k]) by {
            lemma_byte_at_unique(segs, i, lo + k);
        }
    } else if forall|p: int| lo <= p < hi ==> #[trigger] byte_at(segs, p) is Some {
        // The run covering `lo` must reach `hi`: a run that stopped earlier
        // would leave the next byte to a later run, which cannot touch it.
        assert(byte_at(segs, lo) is Some);
        let i = choose|i: int| 0 <= i < segs.len() && (#[trigger] segs[i]).covers(lo);
        if segs[i].end() < hi {
            let p = segs[i].end();
            assert(byte_at(segs, p) is Some);
            let j = choose|j: int| 0 <= j < segs.len() && (#[trigger] segs[j]).covers(p);
            if j < i {
                assert(segs[j].end() < segs[i].start);
            } else if j == i {
            } else {
                assert(segs[i].end() < segs[j].start);
            }
        }
        assert(segs[i].contains_range(lo, hi));
    }
}

#[derive(Debug)]
pub struct Cached {
    start: u64,
    bytes: Vec<u8>,
}

impl View for Cached {
    type V = Segment;

    closed spec fn view(&self) -> Segment {
        Segment { start: self.start as int, bytes: self.bytes@ }
    }
}

impl Clone for Cached {
    fn clone(&self) -> (r: Self)
        ensures
            r@ == self@,
    {
        let bytes = self.bytes.clone();
        assert(bytes@ == self.bytes@);
        Cached { start: self.start, bytes }
    }
}

pub closed spec fn segments(cache: Seq<Cached>) -> Seq<Segment> {
    cache.map_values(|c: Cached| c@)
}


/// Appends `src` to `out`.
fn extend_bytes(out: &mut Vec<u8>, src: &[u8])
    ensures
        final(out)@ == old(out)@ + src@,
{
    let mut i: usize = 0;
    while i < src.len()
        invariant
            i <= src@.len(),
            out@ == old(out)@ + src@.subrange(0, i as int),
        decreases src@.len() - i,
    {
        out.push(src[i]);
        i = i + 1;
        assert(out@ =~= old(out)@ + src@.subrange(0, i as int));
    }
    assert(src@.subrange(0, src@.len() as int) =~= src@);
}

/// The runs before the chunk `cs..ce`, the runs touching or overlapping it,
/// and the runs after it.
pub open spec fn merged_segments(segs: Seq<Segment>, a: int, b: int, cs: int, chunk: Seq<u8>) -> Seq<Segment> {
    let ce = cs + chunk.len();
    let prefix = if a < b && segs[a].start < cs {
        segs[a].bytes.subrange(0, cs - segs[a].start)
    } else {
        Seq::empty()
    };
    let suffix = if a < b && segs[b - 1].end() > ce {
        segs[b - 1].bytes.subrange(ce - segs[b - 1].start, segs[b - 1].bytes.len() as int)
    } else {
        Seq::empty()
    };
    let ms = if a < b && segs[a].start < cs { segs[a].start } else { cs };
    segs.subrange(0, a) + seq![Segment { start: ms, bytes: prefix + chunk + suffix }] + segs.subrange(
        b,
        segs.len() as int,
    )
}

/// Splicing a chunk into a well-formed cache keeps it well formed and makes
/// the known bytes those of the chunk where it lies and the old ones
/// elsewhere.
proof fn lemma_merge(segs: Seq<Segment>, a: int, b: int, cs: int, chunk: Seq<u8>)
    requires
        cache_wf(segs),
        0 <= a <= b <= segs.len(),
        chunk.len() > 0,
        0 <= cs,
        cs + chunk.len() <= u64::MAX,
        forall|i: int| 0 <= i < a ==> (#[trigger] segs[i]).end() < cs,
        forall|i: int| a <= i < segs.len() ==> (#[trigger] segs[i]).end() >= cs,
        forall|i: int| a <= i < b ==> (#[trigger] segs[i]).start <= cs + chunk.len(),
        forall|i: int| b <= i < segs.len() ==> (#[trigger] segs[i]).start > cs + chunk.len(),
        forall|p: int| cs <= p < cs + chunk.len() ==> (#[trigger] byte_at(segs, p) matches Some(v) ==> v == chunk[p - cs]),
    ensures
        cache_wf(merged_segments(segs, a, b, cs, chunk)),
        forall|p: int| #[trigger] byte_at(merged_segments(segs, a, b, cs, chunk), p) == if cs <= p < cs + chunk.len() {
            Some(chunk[p - cs])
        } else {
            byte_at(segs, p)
        },
{
    let ce = cs + chunk.len();
    let new = merged_segments(segs, a, b, cs, chunk);
    let ms = if a < b && segs[a].start < cs { segs[a].start } else { cs };
    let me = if a < b && segs[b - 1].end() > ce { segs[b - 1].end() } else { ce };
    let m = new[a];
    assert(m.start == ms);
    assert(m.end() == me);
    assert(new.len() == a + 1 + (segs.len() - b));
    assert forall|i: int| 0 <= i < a implies new[i] == segs[i] by {}
    assert forall|i: int| a < i < new.len() implies new[i] == segs[i - a - 1 + b] by {}
    // Well-formedness of the spliced sequence.
    assert forall|i: int, j: int| 0 <= i < j < new.len() implies (#[trigger] new[i]).end() < (#[trigger] new[j]).start by {
        if j < a {
        } else if j == a {
            if a < b {
                assert(segs[i].end() < segs[a].start);
            }
        } else if i < a {
            assert(segs[i].end() < cs);
            assert(segs[i].end() < segs[j - a - 1 + b].start);
        } else if i == a {
            let k = j - a - 1 + b;
            if a < b {
                assert(segs[b - 1].end() < segs[k].start);
            }
        } else {
        }
    }
    assert forall|p: int| #[trigger] byte_at(new, p) == if cs <= p < ce { Some(chunk[p - cs]) } else { byte_at(segs, p) } by {
        if cs <= p < ce {
            lemma_byte_at_unique(new, a, p);
        } else if exists|i: int| 0 <= i < segs.len() && (#[trigger] segs[i]).covers(p) {
            let i = choose|i: int| 0 <= i < segs.len() && (#[trigger] segs[i]).covers(p);
            lemma_byte_at_unique(segs, i, p);
            if i < a {
                lemma_byte_at_unique(new, i, p);
            } else if i >= b {
                lemma_byte_at_unique(new, i - b + a + 1, p);
            } else if p < cs {
                if i > a {
                    assert(segs[a].end() < segs[i].start);
                }
                assert(i == a);
                lemma_byte_at_unique(new, a, p);
            } else {
                if i < b - 1 {
                    assert(segs[i].end() < segs[b - 1].start);
                }
                assert(i == b - 1);
                lemma_byte_at_unique(new, a, p);
            }
        } else {
            if exists|k: int| 0 <= k < new.len() && (#[trigger] new[k]).covers(p) {
                let k = choose|k: int| 0 <= k < new.len() && (#[trigger] new[k]).covers(p);
                if k < a {
                    assert(segs[k].covers(p));
                } else if k > a {
                    assert(segs[k - a - 1 + b].covers(p));
                } else if p < cs {
                    assert(segs[a].covers(p));
                } else {
                    assert(segs[b - 1].covers(p));
                }
            }
        }
    }
}

impl Cached {
    fn end(&self) -> (r: u64)
        ensures
            self@.end() <= u64::MAX ==> r == self@.end(),
    {
        let len = self.bytes.len() as u64;
        if len > u64::MAX - self.start {
            u64::MAX
        } else {
            self.start + len
        }
    }
}

/// Whether a chunk disagrees with a byte already known at the same position.
pub open spec fn conflicts(segs: Seq<Segment>, cs: int, chunk: Seq<u8>) -> bool {
    exists|p: int| cs <= p < cs + chunk.len() && (#[trigger] byte_at(segs, p) matches Some(v) && v != chunk[p - cs])
}

fn cache_lookup(cache: &Vec<Cached>, lo: u64, hi: u64) -> (r: Option<&[u8]>)
    requires
        cache_wf(segments(cache@)),
    ensures
        r is Some <==> lookup(segments(cache@), lo as int, hi as int) is Some,
        r matches Some(b) ==> b@ == lookup(segments(cache@), lo as int, hi as int).unwrap(),
{
    let ghost segs = segments(cache@);
    let mut i: usize = 0;
    while i < cache.len()
        invariant
            segs == segments(cache@),
            cache_wf(segs),
            i <= cache@.len(),
            forall|k: int| 0 <= k < i ==> !(#[trigger] segs[k]).contains_range(lo as int, hi as int),
        decreases cache@.len() - i,
    {
        let c = &cache[i];
        assert(segs[i as int] == c@);
        let n = c.bytes.len();
        if c.start <= lo && lo <= hi && hi <= c.end() {
            proof {
                lemma_lookup_unique(segs, i as int, lo as int, hi as int);
            }
            let from = (lo - c.start) as usize;
            let to = (hi - c.start) as usize;
            return Some(&c.bytes.as_slice()[from..to]);
        }
        i = i + 1;
    }
    None
}

fn cache_conflicts(cache: &Vec<Cached>, cs: u64, chunk: &[u8]) -> (r: bool)
    requires
        cache_wf(segments(cache@)),
        cs + chunk@.len() <= u64::MAX,
    ensures
        r == conflicts(segments(cache@), cs as int, chunk@),
{
    let ghost segs = segments(cache@);
    let clen = chunk.len();
    let ce = cs + clen as u64;
    let mut i: usize = 0;
    while i < cache.len()
        invariant
            segs == segments(cache@),
            cache_wf(segs),
            i <= cache@.len(),
            clen == chunk@.len(),
            ce == cs + chunk@.len(),
            forall|k: int, p: int| 0 <= k < i && #[trigger] segs[k].covers(p) && cs <= p < ce ==> segs[k].bytes[p
                - segs[k].start] == chunk@[p - cs],
        decreases cache@.len() - i,
    {
        let c = &cache[i];
        assert(segs[i as int] == c@);
        let n = c.bytes.len();
        let c_end = c.end();
        let lo = if c.start > cs { c.start } else { cs };
        let hi = if c_end < ce { c_end } else { ce };
        let mut p = lo;
        while p < hi
            invariant
                segs == segments(cache@),
                cache_wf(segs),
                i < cache@.len(),
                n == c@.bytes.len(),
                c@ == segs[i as int],
                c_end == c@.end(),
                cs <= lo <= p,
                hi <= ce,
                hi <= c_end,
                c@.start <= lo,
                clen == chunk@.len(),
                ce == cs + chunk@.len(),
                forall|q: int| lo <= q < p ==> (#[trigger] c@.covers(q)) && c@.bytes[q - c@.start] == chunk@[q - cs],
            decreases hi - p,
        {
            if c.bytes[(p - c.start) as usize] != chunk[(p - cs) as usize] {
                proof {
                    lemma_byte_at_unique(segs, i as int, p as int);
                    assert(byte_at(segs, p as int) matches Some(v) && v != chunk@[p - cs]);
                }
                return true;
            }
            let ghost old_p = p;
            assert(c@.covers(p as int));
            assert(c@.bytes[p - c@.start] == chunk@[p - cs]);
            p = p + 1;
            assert forall|q: int| lo <= q < p implies (#[trigger] c@.covers(q)) && c@.bytes[q - c@.start] == chunk@[q - cs] by {
                if q < old_p {
                } else {
                    assert(q == old_p);
                }
            }
        }
        i = i + 1;
    }
    proof {
        assert forall|p: int| cs <= p < ce implies !(#[trigger] byte_at(segs, p) matches Some(v) && v != chunk@[p - cs]) by {
            if exists|k: int| 0 <= k < segs.len() && (#[trigger] segs[k]).covers(p) {
                let k = choose|k: int| 0 <= k < segs.len() && (#[trigger] segs[k]).covers(p);
                lemma_byte_at_unique(segs, k, p);
            }
        }
    }
    false
}

/// Splices a coherent, non-empty chunk into the cache.
fn cache_merge(cache: &mut Vec<Cached>, cs: u64, chunk: &[u8])
    requires
        cache_wf(segments(old(cache)@)),
        chunk@.len() > 0,
        cs + chunk@.len() <= u64::MAX,
        !conflicts(segments(old(cache)@), cs as int, chunk@),
    ensures
        cache_wf(segments(final(cache)@)),
        forall|p: int| #[trigger] byte_at(segments(final(cache)@), p) == if cs <= p < cs + chunk@.len() {
            Some(chunk@[p - cs])
        } else {
            byte_at(segments(old(cache)@), p)
        },
{
    let ghost segs = segments(cache@);
    let ce = cs + chunk.len() as u64;
    let mut a: usize = 0;
    while a < cache.len() && cache[a].end() < cs
        invariant
            segs == segments(cache@),
            cache_wf(segs),
            a <= cache@.len(),
            forall|i: int| 0 <= i < a ==> (#[trigger] segs[i]).end() < cs,
        decreases cache@.len() - a,
    {
        assert(segs[a as int] == cache@[a as int]@);
        a = a + 1;
    }
    proof {
        if a < cache@.len() {
            assert(segs[a as int] == cache@[a as int]@);
        }
        assert forall|i: int| a <= i < segs.len() implies (#[trigger] segs[i]).end() >= cs by {
            if i > a {
                assert(segs[a as int].end() < segs[i].start);
            }
        }
    }
    let mut b: usize = a;
    while b < cache.len() && cache[b].start <= ce
        invariant
            segs == segments(cache@),
            cache_wf(segs),
            a <= b <= cache@.len(),
            forall|i: int| a <= i < b ==> (#[trigger] segs[i]).start <= ce,
        decreases cache@.len() - b,
    {
        assert(segs[b as int] == cache@[b as int]@);
        b = b + 1;
    }
    proof {
        if b < cache@.len() {
            assert(segs[b as int] == cache@[b as int]@);
        }
        assert forall|i: int| b <= i < segs.len() implies (#[trigger] segs[i]).start > ce by {
            if i > b {
                assert(segs[b as int].end() < segs[i].start);
            }
        }
        assert forall|p: int| cs <= p < ce implies (#[trigger] byte_at(segs, p) matches Some(v) ==> v == chunk@[p - cs]) by {
            if !(byte_at(segs, p) matches Some(v) ==> v == chunk@[p - cs]) {
                assert(conflicts(segs, cs as int, chunk@));
            }
        }
        lemma_merge(segs, a as int, b as int, cs as int, chunk@);
    }
    let mut tail = cache.split_off(b);
    let middle = cache.split_off(a);
    let ghost new = merged_segments(segs, a as int, b as int, cs as int, chunk@);
    let ghost prefix = if a < b && segs[a as int].start < cs {
        segs[a as int].bytes.subrange(0, cs - segs[a as int].start)
    } else {
        Seq::<u8>::empty()
    };
    let ghost suffix = if a < b && segs[b - 1].end() > ce {
        segs[b - 1].bytes.subrange(ce - segs[b - 1].start, segs[b - 1].bytes.len() as int)
    } else {
        Seq::<u8>::empty()
    };
    assert(middle@.len() == b - a);
    assert(forall|k: int| 0 <= k < b - a ==> (#[trigger] middle@[k])@ == segs[a + k]);
    let mut bytes: Vec<u8> = Vec::new();
    let mut ms = cs;
    if middle.len() > 0 && middle[0].start < cs {
        assert(middle@[0]@ == segs[a as int]);
        ms = middle[0].start;
        let n0 = middle[0].bytes.len();
        extend_bytes(&mut bytes, &middle[0].bytes.as_slice()[0..(cs - ms) as usize]);
    }
    assert(bytes@ == prefix);
    extend_bytes(&mut bytes, chunk);
    if middle.len() > 0 {
        let last = &middle[middle.len() - 1];
        assert(last@ == segs[b - 1]);
        let nl = last.bytes.len();
        let last_end = last.end();
        if last_end > ce {
            extend_bytes(&mut bytes, &last.bytes.as_slice()[(ce - last.start) as usize..nl]);
        }
    }
    assert(bytes@ == prefix + chunk@ + suffix);
    let ghost mseg = Cached { start: ms, bytes: bytes }@;
    cache.push(Cached { start: ms, bytes });
    cache.append(&mut tail);
    proof {
        let new = merged_segments(segs, a as int, b as int, cs as int, chunk@);
        assert(mseg == new[a as int]);
        assert(segments(cache@) =~= new);
    }
}

/// One directory entry, as plain values; `slot` is the little-endian value
/// of its 8-byte value slot.
pub struct EntryModel {
    pub code: u16,
    pub ty: u16,
    pub count: u64,
    pub slot: u64,
}

/// Entry `i` of a directory whose bytes are `body`.
pub open spec fn entry_at(body: Seq<u8>, i: int) -> EntryModel {
    let off = 8 + 20 * i;
    EntryModel {
        code: le_u16(body, off) as u16,
        ty: le_u16(body, off + 2) as u16,
        count: le_u64(body, off + 4) as u64,
        slot: le_u64(body, off + 12) as u64,
    }
}

/// The `n` entries of a directory whose bytes are `body`.
pub open spec fn entries_of(body: Seq<u8>, n: int) -> Seq<EntryModel> {
    Seq::new(n as nat, |i: int| entry_at(body, i))
}

/// Entry codes strictly increase.
pub open spec fn entries_sorted(es: Seq<EntryModel>) -> bool {
    forall|i: int| 0 <= i < es.len() - 1 ==> (#[trigger] es[i]).code < es[i + 1].code
}

/// The entry with a given code, if the directory has one.
pub open spec fn spec_find(es: Seq<EntryModel>, code: u16) -> Option<EntryModel> {
    if exists|i: int| 0 <= i < es.len() && (#[trigger] es[i]).code == code {
        Some(es[choose|i: int| 0 <= i < es.len() && (#[trigger] es[i]).code == code])
    } else {
        None
    }
}

/// The `k`-th `u16` packed in an inline value slot.
pub open spec fn slot_u16(slot: u64, k: int) -> int {
    if k == 0 {
        slot as int % 0x1_0000
    } else if k == 1 {
        (slot as int / 0x1_0000) % 0x1_0000
    } else {
        (slot as int / 0x1_0000_0000) % 0x1_0000
    }
}

/// The `k`-th `u32` packed in an inline value slot.
pub open spec fn slot_u32(slot: u64, k: int) -> int {
    if k == 0 {
        slot as int % 0x1_0000_0000
    } else {
        slot as int / 0x1_0000_0000
    }
}

/// A single `u16` value stored under `code`.
pub open spec fn spec_scalar_u16(es: Seq<EntryModel>, code: u16) -> Option<u16> {
    match spec_find(es, code) {
        Some(e) => if e.ty == TYPE_U16 && e.count == 1 {
            Some(slot_u16(e.slot, 0) as u16)
        } else {
            None
        },
        None => None,
    }
}

/// A single `u16` or `u32` value stored under `code`.
pub open spec fn spec_scalar_dim(es: Seq<EntryModel>, code: u16) -> Option<u64> {
    match spec_find(es, code) {
        Some(e) => if e.count == 1 && e.ty == TYPE_U16 {
            Some(slot_u16(e.slot, 0) as u64)
        } else if e.count == 1 && e.ty == TYPE_U32 {
            Some(slot_u32(e.slot, 0) as u64)
        } else {
            None
        },
        None => None,
    }
}

/// The bit depth is one value 8, or, for three channels, three values 8.
pub open spec fn spec_bits_valid(es: Seq<EntryModel>, channels: u16) -> bool {
    match spec_find(es, TAG_BITS) {
        Some(e) => e.ty == TYPE_U16 && slot_u16(e.slot, 0) == 8 && (e.count == 1 || (channels == 3 && e.count == 3
            && slot_u16(e.slot, 1) == 8 && slot_u16(e.slot, 2) == 8)),
        None => false,
    }
}

/// The recorded YCbCr subsampling: the entry's two `u16` values; an entry
/// of another shape is ignored, as an absent one is.
pub open spec fn spec_ycbcr(es: Seq<EntryModel>) -> Option<(u16, u16)> {
    match spec_find(es, TAG_YCBCR_SUBSAMPLING) {
        Some(e) => if e.ty == TYPE_U16 && e.count == 2 {
            Some((slot_u16(e.slot, 0) as u16, slot_u16(e.slot, 1) as u16))
        } else {
            None
        },
        None => None,
    }
}

/// A tile array entry: `u32` or `u64` values, one per tile.
pub open spec fn spec_array_entry(es: Seq<EntryModel>, code: u16, tiles: int) -> Option<EntryModel> {
    match spec_find(es, code) {
        Some(e) => if (e.ty == TYPE_U32 || e.ty == TYPE_U64) && e.count == tiles {
            Some(e)
        } else {
            None
        },
        None => None,
    }
}

/// The validated scalar contents of a directory.
pub struct DirFields {
    pub width: u64,
    pub height: u64,
    pub tile_width: u64,
    pub tile_height: u64,
    pub codec: Codec,
    pub color_model: ColorModel,
    pub channels: u16,
    pub ycbcr_subsampling: Option<(u16, u16)>,
    pub offsets: EntryModel,
    pub counts: EntryModel,
}

/// The scalar contents of a directory, if they satisfy every rule of the
/// format: 8-bit samples, a known codec, a color model matching 1 or 3
/// channels, interleaved samples, non-zero dimensions, tile sizes that are
/// multiples of 16, and tile arrays of one value per tile.
pub open spec fn spec_dir_fields(es: Seq<EntryModel>) -> Option<DirFields> {
    let width = spec_scalar_dim(es, TAG_WIDTH);
    let height = spec_scalar_dim(es, TAG_HEIGHT);
    let codec = spec_scalar_u16(es, TAG_CODEC);
    let color = spec_scalar_u16(es, TAG_COLOR);
    let channels = spec_scalar_u16(es, TAG_CHANNELS);
    let interleave = spec_scalar_u16(es, TAG_INTERLEAVE);
    let tile_width = spec_scalar_dim(es, TAG_TILE_WIDTH);
    let tile_height = spec_scalar_dim(es, TAG_TILE_HEIGHT);
    if width is Some && height is Some && codec is Some && codec_of_code(codec.unwrap()) is Some && color is Some
        && color_model_of_code(color.unwrap()) is Some && channels is Some && (channels.unwrap() == 1
        || channels.unwrap() == 3) && color_model_of_code(color.unwrap()).unwrap().matches_channels(
        channels.unwrap(),
    ) && spec_bits_valid(es, channels.unwrap()) && interleave == Some(1u16) && tile_width is Some
        && tile_height is Some && width.unwrap() != 0 && height.unwrap() != 0 && tile_width.unwrap() != 0
        && tile_height.unwrap() != 0 && tile_width.unwrap() % 16 == 0 && tile_height.unwrap() % 16 == 0 {
        let grid = spec_tile_grid(
            width.unwrap() as int,
            height.unwrap() as int,
            tile_width.unwrap() as int,
            tile_height.unwrap() as int,
        );
        let offsets = spec_array_entry(es, TAG_TILE_OFFSETS, grid.2);
        let counts = spec_array_entry(es, TAG_TILE_COUNTS, grid.2);
        let ycbcr = spec_ycbcr(es);
        if grid.2 <= u64::MAX && offsets is Some && counts is Some {
            Some(
                DirFields {
                    width: width.unwrap(),
                    height: height.unwrap(),
                    tile_width: tile_width.unwrap(),
                    tile_height: tile_height.unwrap(),
                    codec: codec_of_code(codec.unwrap()).unwrap(),
                    color_model: color_model_of_code(color.unwrap()).unwrap(),
                    channels: channels.unwrap(),
                    ycbcr_subsampling: ycbcr,
                    offsets: offsets.unwrap(),
                    counts: counts.unwrap(),
                },
            )
        } else {
            None
        }
    } else {
        None
    }
}

/// The message a missing or misshapen single `u16` entry is refused with.
pub open spec fn scalar_u16_error(es: Seq<EntryModel>, code: u16) -> &'static str {
    if spec_find(es, code) is None {
        "missing required entry"
    } else {
        "invalid scalar u16 entry"
    }
}

/// The message a missing or misshapen dimension entry is refused with.
pub open spec fn scalar_dim_error(es: Seq<EntryModel>, code: u16) -> &'static str {
    match spec_find(es, code) {
        None => "missing required entry",
        Some(e) => if e.count != 1 {
            "invalid scalar entry count"
        } else {
            "invalid scalar entry type"
        },
    }
}

/// The message a missing or misshapen tile array entry is refused with.
pub open spec fn array_entry_error(es: Seq<EntryModel>, code: u16) -> &'static str {
    if spec_find(es, code) is None {
        "missing required entry"
    } else {
        "invalid tile array entry"
    }
}

/// The message that scalar contents refused by `spec_dir_fields` are
/// reported with: that of the first rule broken, the rules taken in the
/// order `spec_dir_fields` lists them.
pub open spec fn dir_fields_error(es: Seq<EntryModel>) -> &'static str {
    let width = spec_scalar_dim(es, TAG_WIDTH);
    let height = spec_scalar_dim(es, TAG_HEIGHT);
    let codec = spec_scalar_u16(es, TAG_CODEC);
    let color = spec_scalar_u16(es, TAG_COLOR);
    let channels = spec_scalar_u16(es, TAG_CHANNELS);
    let interleave = spec_scalar_u16(es, TAG_INTERLEAVE);
    let tile_width = spec_scalar_dim(es, TAG_TILE_WIDTH);
    let tile_height = spec_scalar_dim(es, TAG_TILE_HEIGHT);
    if width is None {
        scalar_dim_error(es, TAG_WIDTH)
    } else if height is None {
        scalar_dim_error(es, TAG_HEIGHT)
    } else if codec is None {
        scalar_u16_error(es, TAG_CODEC)
    } else if codec_of_code(codec.unwrap()) is None {
        "unsupported codec code"
    } else if color is None {
        scalar_u16_error(es, TAG_COLOR)
    } else if color_model_of_code(color.unwrap()) is None {
        "unsupported color model"
    } else if channels is None {
        scalar_u16_error(es, TAG_CHANNELS)
    } else if channels.unwrap() != 1 && channels.unwrap() != 3 {
        "invalid channels"
    } else if !color_model_of_code(color.unwrap()).unwrap().matches_channels(channels.unwrap()) {
        "color model does not match channel count"
    } else if !spec_bits_valid(es, channels.unwrap()) {
        "invalid bit depth"
    } else if interleave is None {
        scalar_u16_error(es, TAG_INTERLEAVE)
    } else if interleave != Some(1u16) {
        "invalid interleave"
    } else if tile_width is None {
        scalar_dim_error(es, TAG_TILE_WIDTH)
    } else if tile_height is None {
        scalar_dim_error(es, TAG_TILE_HEIGHT)
    } else if width.unwrap() == 0 || height.unwrap() == 0 || tile_width.unwrap() == 0 || tile_height.unwrap() == 0 {
        "zero dimension"
    } else if tile_width.unwrap() % 16 != 0 || tile_height.unwrap() % 16 != 0 {
        "tile size is not a multiple of 16"
    } else {
        let grid = spec_tile_grid(
            width.unwrap() as int,
            height.unwrap() as int,
            tile_width.unwrap() as int,
            tile_height.unwrap() as int,
        );
        if grid.2 > u64::MAX {
            "tile count overflows u64"
        } else if spec_array_entry(es, TAG_TILE_OFFSETS, grid.2) is None {
            array_entry_error(es, TAG_TILE_OFFSETS)
        } else {
            array_entry_error(es, TAG_TILE_COUNTS)
        }
    }
}

/// The outcome of resolving a value array.
pub enum ArrayRead {
    Need(int, int),
    /// Refused, with the message the reader reports.
    Fail(&'static str),
    Done(Seq<u64>),
}

/// Byte size of one value of an array entry.
pub open spec fn elem_size(ty: u16) -> int {
    if ty == TYPE_U32 {
        4
    } else {
        8
    }
}

/// The values of an array entry: inline when they fit in the 8-byte slot,
/// otherwise at the offset the slot holds.
pub open spec fn spec_read_array(segs: Seq<Segment>, e: EntryModel) -> ArrayRead {
    let size = elem_size(e.ty);
    let total = e.count * size;
    if total <= 8 {
        ArrayRead::Done(
            Seq::new(
                e.count as nat,
                |k: int|
                    if size == 4 {
                        slot_u32(e.slot, k) as u64
                    } else {
                        e.slot
                    },
            ),
        )
    } else if e.slot + total > u64::MAX {
        ArrayRead::Fail(
            if total > u64::MAX {
                "array length overflow"
            } else {
                "array range overflow"
            },
        )
    } else {
        match lookup(segs, e.slot as int, e.slot + total) {
            None => ArrayRead::Need(e.slot as int, e.slot + total),
            Some(b) => ArrayRead::Done(
                Seq::new(
                    e.count as nat,
                    |k: int|
                        if size == 4 {
                            le_u32(b, 4 * k) as u64
                        } else {
                            le_u64(b, 8 * k) as u64
                        },
                ),
            ),
        }
    }
}

/// The outcome of parsing one directory into a level.
pub enum LevelRead {
    Need(int, int),
    /// Refused, with the message the reader reports.
    Fail(&'static str),
    Done(LevelModel),
}

/// A directory parsed into a level: the scalars must be valid, the tile
/// arrays known, byte counts must fit in 32 bits, byte ranges must not
/// overflow and, when the file length is known, must lie inside the file.
#[verifier::opaque]
pub open spec fn spec_parse_level(segs: Seq<Segment>, file_len: Option<u64>, index: usize, es: Seq<EntryModel>) -> LevelRead {
    match spec_dir_fields(es) {
        None => LevelRead::Fail(dir_fields_error(es)),
        Some(f) => match spec_read_array(segs, f.offsets) {
            ArrayRead::Need(lo, hi) => LevelRead::Need(lo, hi),
            ArrayRead::Fail(m) => LevelRead::Fail(m),
            ArrayRead::Done(offs) => match spec_read_array(segs, f.counts) {
                ArrayRead::Need(lo, hi) => LevelRead::Need(lo, hi),
                ArrayRead::Fail(m) => LevelRead::Fail(m),
                ArrayRead::Done(cnts) => {
                    if !(forall|k: int| 0 <= k < cnts.len() ==> #[trigger] cnts[k] <= u32::MAX) {
                        LevelRead::Fail("tile byte count exceeds u32")
                    } else if !(forall|k: int| 0 <= k < cnts.len() ==> #[trigger] offs[k] + cnts[k] <= u64::MAX) {
                        LevelRead::Fail("tile byte range overflows")
                    } else if file_len matches Some(n) && !(forall|k: int|
                        0 <= k < cnts.len() ==> #[trigger] offs[k] + cnts[k] <= n) {
                        LevelRead::Fail("tile byte range exceeds file length")
                    } else {
                        let grid = spec_tile_grid(
                            f.width as int,
                            f.height as int,
                            f.tile_width as int,
                            f.tile_height as int,
                        );
                        LevelRead::Done(
                            LevelModel {
                                index,
                                width: f.width,
                                height: f.height,
                                tile_width: f.tile_width,
                                tile_height: f.tile_height,
                                tiles_across: grid.0 as u64,
                                tiles_down: grid.1 as u64,
                                codec: f.codec,
                                color_model: f.color_model,
                                channels: f.channels,
                                ycbcr_subsampling: f.ycbcr_subsampling,
                                offsets: offs,
                                counts: cnts.map_values(|v: u64| v as u32),
                            },
                        )
                    }
                },
            },
        },
    }
}

/// The outcome of parsing the known bytes of a file.
pub enum SpecParse {
    /// The bytes of `lo..hi` are needed; `levels` are the levels parsed so far.
    Need { lo: int, hi: int, levels: Seq<LevelModel> },
    /// The whole chain was parsed.
    Done { levels: Seq<LevelModel> },
    /// The file breaks a rule of the format; the message says which.
    Fail(&'static str),
}

/// The magic bytes that open every file: little-endian byte order, version
/// 0x2B, 8-byte offsets, and a zero reserved field.
pub open spec fn header_magic() -> Seq<u8> {
    seq![0x49u8, 0x49, 0x2b, 0x00, 0x08, 0x00, 0x00, 0x00]
}

/// Upper bound on the number of entries a directory may declare.
pub const MAX_ENTRIES: u64 = 4096;

/// The outcome of reading the directory at one offset of the chain.
pub enum DirStep {
    Need(int, int),
    /// Refused, with the message the reader reports.
    Fail(&'static str),
    Level(LevelModel, u64),
}

/// Reads the directory at `dir` as level `index`: it must not repeat a
/// directory already `visited`, must declare at most `MAX_ENTRIES` entries
/// with strictly increasing codes, and must parse into a level; the result
/// carries the offset of the next directory.
#[verifier::opaque]
pub open spec fn spec_dir_step(segs: Seq<Segment>, file_len: Option<u64>, dir: u64, index: usize, visited: Seq<u64>) -> DirStep {
    if visited.contains(dir) || dir + 8 > u64::MAX {
        DirStep::Fail(
            if visited.contains(dir) {
                "directory cycle"
            } else {
                "directory range overflow"
            },
        )
    } else {
        match lookup(segs, dir as int, dir + 8) {
            None => DirStep::Need(dir as int, dir + 8),
            Some(cb) => {
                let n = le_u64(cb, 0);
                let body_len = 16 + 20 * n;
                if n > MAX_ENTRIES || dir + body_len > u64::MAX {
                    DirStep::Fail(
                        if n > MAX_ENTRIES {
                            "too many directory entries"
                        } else {
                            "directory range overflow"
                        },
                    )
                } else {
                    match lookup(segs, dir as int, dir + body_len) {
                        None => DirStep::Need(dir as int, dir + body_len),
                        Some(body) => {
                            let es = entries_of(body, n);
                            if !entries_sorted(es) {
                                DirStep::Fail("directory entries are not strictly sorted")
                            } else {
                                match spec_parse_level(segs, file_len, index, es) {
                                    LevelRead::Fail(m) => DirStep::Fail(m),
                                    LevelRead::Need(lo, hi) => DirStep::Need(lo, hi),
                                    LevelRead::Done(l) => DirStep::Level(l, le_u64(body, 8 + 20 * n) as u64),
                                }
                            }
                        },
                    }
                }
            },
        }
    }
}

/// Follows the directory chain from `dir`, having parsed `levels` from the
/// directories `visited`; a zero offset ends the chain.
pub open spec fn spec_chain(
    segs: Seq<Segment>,
    file_len: Option<u64>,
    dir: u64,
    levels: Seq<LevelModel>,
    visited: Seq<u64>,
) -> SpecParse
    decreases 0x1_0000_0000_0000_0000 - visited.len(),
{
    if dir == 0 {
        SpecParse::Done { levels }
    } else if visited.len() >= 0x1_0000_0000_0000_0000 {
        SpecParse::Fail("directory cycle")
    } else {
        match spec_dir_step(segs, file_len, dir, levels.len() as usize, visited) {
            DirStep::Fail(m) => SpecParse::Fail(m),
            DirStep::Need(lo, hi) => SpecParse::Need { lo, hi, levels },
            DirStep::Level(l, next) => spec_chain(segs, file_len, next, levels.push(l), visited.push(dir)),
        }
    }
}

/// The parse of the known bytes: the header must carry the magic bytes and
/// a non-zero first directory offset, and the chain must parse from there.
pub open spec fn spec_parse(segs: Seq<Segment>, file_len: Option<u64>) -> SpecParse {
    match lookup(segs, 0, 16) {
        None => SpecParse::Need { lo: 0, hi: 16, levels: Seq::empty() },
        Some(h) => if h.subrange(0, 8) != header_magic() || le_u64(h, 8) == 0 {
            SpecParse::Fail(
                if h.subrange(0, 8) != header_magic() {
                    "invalid header"
                } else {
                    "missing first directory"
                },
            )
        } else {
            spec_chain(segs, file_len, le_u64(h, 8) as u64, Seq::empty(), Seq::empty())
        },
    }
}

/// Two caches that know the same bytes look up the same bytes.
proof fn lemma_same_lookup(s1: Seq<Segment>, s2: Seq<Segment>, lo: int, hi: int)
    requires
        cache_wf(s1),
        cache_wf(s2),
        forall|p: int| #[trigger] byte_at(s1, p) == byte_at(s2, p),
        lo < hi,
    ensures
        lookup(s1, lo, hi) == lookup(s2, lo, hi),
{
    lemma_lookup_is_known_bytes(s1, lo, hi);
    lemma_lookup_is_known_bytes(s2, lo, hi);
    if lookup(s2, lo, hi) is Some {
        assert forall|p: int| lo <= p < hi implies #[trigger] byte_at(s1, p) is Some by {
            assert(byte_at(s2, p) is Some);
        }
    }
    if lookup(s1, lo, hi) is Some {
        assert forall|p: int| lo <= p < hi implies #[trigger] byte_at(s2, p) is Some by {
            assert(byte_at(s1, p) is Some);
        }
        assert(lookup(s2, lo, hi) is Some);
        let a = lookup(s1, lo, hi).unwrap();
        let b = lookup(s2, lo, hi).unwrap();
        assert forall|k: int| 0 <= k < hi - lo implies a[k] == b[k] by {
            assert(byte_at(s1, lo + k) == byte_at(s2, lo + k));
        }
        assert(a =~= b);
    }
}

#[verifier::spinoff_prover]
proof fn lemma_same_level_read(s1: Seq<Segment>, s2: Seq<Segment>, file_len: Option<u64>, index: usize, es: Seq<EntryModel>)
    requires
        cache_wf(s1),
        cache_wf(s2),
        forall|p: int| #[trigger] byte_at(s1, p) == byte_at(s2, p),
    ensures
        spec_parse_level(s1, file_len, index, es) == spec_parse_level(s2, file_len, index, es),
{
    reveal(spec_parse_level);
    if let Some(f) = spec_dir_fields(es) {
        let eo = f.offsets;
        let ec = f.counts;
        if eo.count * elem_size(eo.ty) > 8 && eo.slot + eo.count * elem_size(eo.ty) <= u64::MAX {
            lemma_same_lookup(s1, s2, eo.slot as int, eo.slot + eo.count * elem_size(eo.ty));
        }
        if ec.count * elem_size(ec.ty) > 8 && ec.slot + ec.count * elem_size(ec.ty) <= u64::MAX {
            lemma_same_lookup(s1, s2, ec.slot as int, ec.slot + ec.count * elem_size(ec.ty));
        }
        assert(spec_read_array(s1, eo) == spec_read_array(s2, eo));
        assert(spec_read_array(s1, ec) == spec_read_array(s2, ec));
    }
}

#[verifier::spinoff_prover]
proof fn lemma_same_dir_step(s1: Seq<Segment>, s2: Seq<Segment>, file_len: Option<u64>, dir: u64, index: usize, visited: Seq<u64>)
    requires
        cache_wf(s1),
        cache_wf(s2),
        forall|p: int| #[trigger] byte_at(s1, p) == byte_at(s2, p),
    ensures
        spec_dir_step(s1, file_len, dir, index, visited) == spec_dir_step(s2, file_len, dir, index, visited),
{
    reveal(spec_dir_step);
    if !(visited.contains(dir) || dir + 8 > u64::MAX) {
        lemma_same_lookup(s1, s2, dir as int, dir + 8);
        if let Some(cb) = lookup(s1, dir as int, dir + 8) {
            let n = le_u64(cb, 0);
            let body_len = 16 + 20 * n;
            if !(n > MAX_ENTRIES || dir + body_len > u64::MAX) {
                lemma_same_lookup(s1, s2, dir as int, dir + body_len);
                if let Some(body) = lookup(s1, dir as int, dir + body_len) {
                    lemma_same_level_read(s1, s2, file_len, index, entries_of(body, n));
                }
            }
        }
    }
}

proof fn lemma_same_chain(
    s1: Seq<Segment>,
    s2: Seq<Segment>,
    file_len: Option<u64>,
    dir: u64,
    levels: Seq<LevelModel>,
    visited: Seq<u64>,
)
    requires
        cache_wf(s1),
        cache_wf(s2),
        forall|p: int| #[trigger] byte_at(s1, p) == byte_at(s2, p),
    ensures
        spec_chain(s1, file_len, dir, levels, visited) == spec_chain(s2, file_len, dir, levels, visited),
    decreases 0x1_0000_0000_0000_0000 - visited.len(),
{
    if dir != 0 && visited.len() < 0x1_0000_0000_0000_0000 {
        lemma_same_dir_step(s1, s2, file_len, dir, levels.len() as usize, visited);
        if let DirStep::Level(l, next) = spec_dir_step(s1, file_len, dir, levels.len() as usize, visited) {
            lemma_same_chain(s1, s2, file_len, next, levels.push(l), visited.push(dir));
        }
    }
}

/// The parse depends on the bytes the reader knows, not on the chunks they
/// came in: two caches that know the same bytes, with the same file length
/// known or unknown, parse alike.
pub proof fn lemma_parse_depends_on_known_bytes(s1: Seq<Segment>, s2: Seq<Segment>, file_len: Option<u64>)
    requires
        cache_wf(s1),
        cache_wf(s2),
        forall|p: int| #[trigger] byte_at(s1, p) == byte_at(s2, p),
    ensures
        spec_parse(s1, file_len) == spec_parse(s2, file_len),
{
    lemma_same_lookup(s1, s2, 0, 16);
    if let Some(h) = lookup(s1, 0, 16) {
        lemma_same_chain(s1, s2, file_len, le_u64(h, 8) as u64, Seq::empty(), Seq::empty());
    }
}

#[verifier::spinoff_prover]
proof fn lemma_length_level(segs: Seq<Segment>, n: u64, index: usize, es: Seq<EntryModel>)
    ensures
        spec_parse_level(segs, Some(n), index, es) == spec_parse_level(segs, None, index, es) || spec_parse_level(
            segs,
            Some(n),
            index,
            es,
        ) is Fail,
{
    reveal(spec_parse_level);
}

#[verifier::spinoff_prover]
proof fn lemma_length_dir_step(segs: Seq<Segment>, n: u64, dir: u64, index: usize, visited: Seq<u64>)
    ensures
        spec_dir_step(segs, Some(n), dir, index, visited) == spec_dir_step(segs, None, dir, index, visited)
            || spec_dir_step(segs, Some(n), dir, index, visited) is Fail,
{
    reveal(spec_dir_step);
    if !(visited.contains(dir) || dir + 8 > u64::MAX) {
        if let Some(cb) = lookup(segs, dir as int, dir + 8) {
            let c = le_u64(cb, 0);
            let body_len = 16 + 20 * c;
            if !(c > MAX_ENTRIES || dir + body_len > u64::MAX) {
                if let Some(body) = lookup(segs, dir as int, dir + body_len) {
                    lemma_length_level(segs, n, index, entries_of(body, c));
                }
            }
        }
    }
}

proof fn lemma_length_chain(segs: Seq<Segment>, n: u64, dir: u64, levels: Seq<LevelModel>, visited: Seq<u64>)
    ensures
        spec_chain(segs, Some(n), dir, levels, visited) == spec_chain(segs, None, dir, levels, visited) || spec_chain(
            segs,
            Some(n),
            dir,
            levels,
            visited,
        ) is Fail,
    decreases 0x1_0000_0000_0000_0000 - visited.len(),
{
    if dir != 0 && visited.len() < 0x1_0000_0000_0000_0000 {
        lemma_length_dir_step(segs, n, dir, levels.len() as usize, visited);
        if let DirStep::Level(l, next) = spec_dir_step(segs, Some(n), dir, levels.len() as usize, visited) {
            lemma_length_chain(segs, n, next, levels.push(l), visited.push(dir));
        }
    }
}

/// Knowing the file's length only ever refuses: with the length known, the
/// parse is the one without it, or a refusal (of a tile that runs past the
/// end of the file).
pub proof fn lemma_known_length_only_refuses(segs: Seq<Segment>, n: u64)
    ensures
        spec_parse(segs, Some(n)) == spec_parse(segs, None) || spec_parse(segs, Some(n)) is Fail,
{
    if let Some(h) = lookup(segs, 0, 16) {
        lemma_length_chain(segs, n, le_u64(h, 8) as u64, Seq::empty(), Seq::empty());
    }
}

/// However the bytes of a file arrive (exact ranges, larger ones, the whole
/// file, with its length told or not), two readers that know the same bytes
/// reach the same outcome, unless one of them refuses the file for a tile
/// that runs past the length it was told.
pub proof fn lemma_feeds_agree(s1: Seq<Segment>, s2: Seq<Segment>, n1: Option<u64>, n2: Option<u64>)
    requires
        cache_wf(s1),
        cache_wf(s2),
        forall|p: int| #[trigger] byte_at(s1, p) == byte_at(s2, p),
    ensures
        spec_parse(s1, n1) == spec_parse(s2, n2) || spec_parse(s1, n1) is Fail || spec_parse(s2, n2) is Fail,
{
    lemma_parse_depends_on_known_bytes(s1, s2, None);
    if let Some(n) = n1 {
        lemma_known_length_only_refuses(s1, n);
    }
    if let Some(n) = n2 {
        lemma_known_length_only_refuses(s2, n);
    }
}

/// Some byte of `lo..hi` is not known yet.
pub open spec fn not_all_known(segs: Seq<Segment>, lo: int, hi: int) -> bool {
    lo < hi && exists|p: int| lo <= p < hi && #[trigger] byte_at(segs, p) is None
}

proof fn lemma_lookup_none(segs: Seq<Segment>, lo: int, hi: int)
    requires
        cache_wf(segs),
        lo < hi,
        lookup(segs, lo, hi) is None,
    ensures
        not_all_known(segs, lo, hi),
{
    lemma_lookup_is_known_bytes(segs, lo, hi);
}

#[verifier::spinoff_prover]
proof fn lemma_level_need(segs: Seq<Segment>, file_len: Option<u64>, index: usize, es: Seq<EntryModel>)
    requires
        cache_wf(segs),
    ensures
        spec_parse_level(segs, file_len, index, es) matches LevelRead::Need(lo, hi) ==> not_all_known(segs, lo, hi),
{
    reveal(spec_parse_level);
    if let Some(f) = spec_dir_fields(es) {
        let eo = f.offsets;
        let ec = f.counts;
        if eo.count * elem_size(eo.ty) > 8 && eo.slot + eo.count * elem_size(eo.ty) <= u64::MAX && lookup(
            segs,
            eo.slot as int,
            eo.slot + eo.count * elem_size(eo.ty),
        ) is None {
            lemma_lookup_none(segs, eo.slot as int, eo.slot + eo.count * elem_size(eo.ty));
        }
        if ec.count * elem_size(ec.ty) > 8 && ec.slot + ec.count * elem_size(ec.ty) <= u64::MAX && lookup(
            segs,
            ec.slot as int,
            ec.slot + ec.count * elem_size(ec.ty),
        ) is None {
            lemma_lookup_none(segs, ec.slot as int, ec.slot + ec.count * elem_size(ec.ty));
        }
    }
}

#[verifier::spinoff_prover]
proof fn lemma_dir_step_need(segs: Seq<Segment>, file_len: Option<u64>, dir: u64, index: usize, visited: Seq<u64>)
    requires
        cache_wf(segs),
    ensures
        spec_dir_step(segs, file_len, dir, index, visited) matches DirStep::Need(lo, hi) ==> not_all_known(segs, lo, hi),
{
    reveal(spec_dir_step);
    if !(visited.contains(dir) || dir + 8 > u64::MAX) {
        match lookup(segs, dir as int, dir + 8) {
            None => lemma_lookup_none(segs, dir as int, dir + 8),
            Some(cb) => {
                let c = le_u64(cb, 0);
                let body_len = 16 + 20 * c;
                if !(c > MAX_ENTRIES || dir + body_len > u64::MAX) {
                    match lookup(segs, dir as int, dir + body_len) {
                        None => lemma_lookup_none(segs, dir as int, dir + body_len),
                        Some(body) => lemma_level_need(segs, file_len, index, entries_of(body, c)),
                    }
                }
            },
        }
    }
}

proof fn lemma_chain_need(segs: Seq<Segment>, file_len: Option<u64>, dir: u64, levels: Seq<LevelModel>, visited: Seq<u64>)
    requires
        cache_wf(segs),
    ensures
        spec_chain(segs, file_len, dir, levels, visited) matches SpecParse::Need { lo, hi, .. } ==> not_all_known(
            segs,
            lo,
            hi,
        ),
    decreases 0x1_0000_0000_0000_0000 - visited.len(),
{
    if dir != 0 && visited.len() < 0x1_0000_0000_0000_0000 {
        lemma_dir_step_need(segs, file_len, dir, levels.len() as usize, visited);
        if let DirStep::Level(l, next) = spec_dir_step(segs, file_len, dir, levels.len() as usize, visited) {
            lemma_chain_need(segs, file_len, next, levels.push(l), visited.push(dir));
        }
    }
}

/// The reader makes progress: a range it asks for is never empty and never
/// wholly among the bytes it already knows.
pub proof fn lemma_need_is_unknown(segs: Seq<Segment>, file_len: Option<u64>)
    requires
        cache_wf(segs),
    ensures
        spec_parse(segs, file_len) matches SpecParse::Need { lo, hi, .. } ==> not_all_known(segs, lo, hi),
{
    match lookup(segs, 0, 16) {
        None => lemma_lookup_none(segs, 0, 16),
        Some(h) => lemma_chain_need(segs, file_len, le_u64(h, 8) as u64, Seq::empty(), Seq::empty()),
    }
}

/// Every tile of a level lies inside a file of `n` bytes.
pub open spec fn tiles_inside(l: LevelModel, n: u64) -> bool {
    forall|k: int| 0 <= k < l.offsets.len() && k < l.counts.len() ==> #[trigger] l.offsets[k] + l.counts[k] <= n
}

#[verifier::spinoff_prover]
proof fn lemma_level_inside(segs: Seq<Segment>, n: u64, index: usize, es: Seq<EntryModel>)
    ensures
        spec_parse_level(segs, Some(n), index, es) matches LevelRead::Done(l) ==> tiles_inside(l, n),
{
    reveal(spec_parse_level);
    if let LevelRead::Done(l) = spec_parse_level(segs, Some(n), index, es) {
        let f = spec_dir_fields(es).unwrap();
        let offs = spec_read_array(segs, f.offsets)->Done_0;
        let cnts = spec_read_array(segs, f.counts)->Done_0;
        assert forall|k: int| 0 <= k < l.offsets.len() && k < l.counts.len() implies #[trigger] l.offsets[k]
            + l.counts[k] <= n by {
            assert(cnts[k] <= u32::MAX);
            assert(l.counts[k] == cnts[k] as u32);
            assert(offs[k] + cnts[k] <= n);
        }
    }
}

#[verifier::spinoff_prover]
proof fn lemma_dir_step_inside(segs: Seq<Segment>, n: u64, dir: u64, index: usize, visited: Seq<u64>)
    ensures
        spec_dir_step(segs, Some(n), dir, index, visited) matches DirStep::Level(l, _) ==> tiles_inside(l, n),
{
    reveal(spec_dir_step);
    if !(visited.contains(dir) || dir + 8 > u64::MAX) {
        if let Some(cb) = lookup(segs, dir as int, dir + 8) {
            let c = le_u64(cb, 0);
            let body_len = 16 + 20 * c;
            if !(c > MAX_ENTRIES || dir + body_len > u64::MAX) {
                if let Some(body) = lookup(segs, dir as int, dir + body_len) {
                    lemma_level_inside(segs, n, index, entries_of(body, c));
                }
            }
        }
    }
}

proof fn lemma_chain_inside(segs: Seq<Segment>, n: u64, dir: u64, levels: Seq<LevelModel>, visited: Seq<u64>)
    requires
        forall|i: int| 0 <= i < levels.len() ==> tiles_inside(#[trigger] levels[i], n),
    ensures
        spec_chain(segs, Some(n), dir, levels, visited) matches SpecParse::Done { levels: ls } ==> forall|i: int|
            0 <= i < ls.len() ==> tiles_inside(#[trigger] ls[i], n),
    decreases 0x1_0000_0000_0000_0000 - visited.len(),
{
    if dir != 0 && visited.len() < 0x1_0000_0000_0000_0000 {
        lemma_dir_step_inside(segs, n, dir, levels.len() as usize, visited);
        if let DirStep::Level(l, next) = spec_dir_step(segs, Some(n), dir, levels.len() as usize, visited) {
            lemma_chain_inside(segs, n, next, levels.push(l), visited.push(dir));
        }
    }
}

/// Once the reader knows the file's length, a finished parse has at least
/// one level and every tile of every level lies inside the file.
pub proof fn lemma_done_tiles_inside(segs: Seq<Segment>, n: u64)
    ensures
        spec_parse(segs, Some(n)) matches SpecParse::Done { levels } ==> levels.len() > 0 && forall|i: int|
            0 <= i < levels.len() ==> tiles_inside(#[trigger] levels[i], n),
{
    if let Some(h) = lookup(segs, 0, 16) {
        if !(h.subrange(0, 8) != header_magic() || le_u64(h, 8) == 0) {
            lemma_chain_inside(segs, n, le_u64(h, 8) as u64, Seq::empty(), Seq::empty());
            lemma_chain_nonempty(segs, Some(n), le_u64(h, 8) as u64, Seq::empty(), Seq::empty());
        }
    }
}

proof fn lemma_chain_nonempty(
    segs: Seq<Segment>,
    file_len: Option<u64>,
    dir: u64,
    levels: Seq<LevelModel>,
    visited: Seq<u64>,
)
    requires
        dir != 0 || levels.len() > 0,
    ensures
        spec_chain(segs, file_len, dir, levels, visited) matches SpecParse::Done { levels: ls } ==> ls.len() > 0,
    decreases 0x1_0000_0000_0000_0000 - visited.len(),
{
    if dir != 0 && visited.len() < 0x1_0000_0000_0000_0000 {
        if let DirStep::Level(l, next) = spec_dir_step(segs, file_len, dir, levels.len() as usize, visited) {
            lemma_chain_nonempty(segs, file_len, next, levels.push(l), visited.push(dir));
        }
    }
}

/// The reader refuses a file whose header breaks the format once it knows
/// the header: the magic bytes must open the file and the first directory
/// offset must not be zero.
pub proof fn lemma_header_defects(segs: Seq<Segment>, file_len: Option<u64>)
    ensures
        lookup(segs, 0, 16) matches Some(h) && (h.subrange(0, 8) != header_magic() || le_u64(h, 8) == 0)
            ==> spec_parse(segs, file_len) is Fail,
{
}

/// The reader refuses a directory met twice in the chain.
pub proof fn lemma_dir_revisit(segs: Seq<Segment>, file_len: Option<u64>, dir: u64, index: usize, visited: Seq<u64>)
    requires
        visited.contains(dir),
    ensures
        spec_dir_step(segs, file_len, dir, index, visited) is Fail,
{
    reveal(spec_dir_step);
}

/// The reader refuses a directory that breaks the format once it knows the
/// directory: more than `MAX_ENTRIES` entries, codes not strictly
/// increasing, or scalar contents that break a rule (a missing or invalid
/// required entry, a zero dimension, a tile size that is not a multiple of
/// 16, tile arrays not of one value per tile).
#[verifier::spinoff_prover]
#[verifier::rlimit(40)]
pub proof fn lemma_dir_defects(
    segs: Seq<Segment>,
    file_len: Option<u64>,
    dir: u64,
    index: usize,
    visited: Seq<u64>,
    count_bytes: Seq<u8>,
    body: Seq<u8>,
)
    requires
        !visited.contains(dir),
        dir + 8 <= u64::MAX,
        lookup(segs, dir as int, dir + 8) == Some(count_bytes),
    ensures
        le_u64(count_bytes, 0) > MAX_ENTRIES ==> spec_dir_step(segs, file_len, dir, index, visited) is Fail,
        le_u64(count_bytes, 0) <= MAX_ENTRIES && dir + 16 + 20 * le_u64(count_bytes, 0) <= u64::MAX && lookup(
            segs,
            dir as int,
            dir + 16 + 20 * le_u64(count_bytes, 0),
        ) == Some(body) && (!entries_sorted(entries_of(body, le_u64(count_bytes, 0))) || spec_dir_fields(
            entries_of(body, le_u64(count_bytes, 0)),
        ) is None) ==> spec_dir_step(segs, file_len, dir, index, visited) is Fail,
{
    reveal(spec_dir_step);
    reveal(spec_parse_level);
}

/// A dimension entry (one value) is read from the low bytes of its value
/// slot, little-endian: a `u16` entry gives its first two bytes, a `u32`
/// entry its first four, so a `u16` dimension is accepted exactly like the
/// same value stored as `u32`; any other type is refused.
pub proof fn lemma_scalar_dim_types(es: Seq<EntryModel>, i: int)
    requires
        entries_sorted(es),
        0 <= i < es.len(),
        es[i].count == 1,
    ensures
        es[i].ty == 3 ==> spec_scalar_dim(es, es[i].code) == Some((es[i].slot % 0x1_0000) as u64),
        es[i].ty == 4 ==> spec_scalar_dim(es, es[i].code) == Some((es[i].slot % 0x1_0000_0000) as u64),
        es[i].ty != 3 && es[i].ty != 4 ==> spec_scalar_dim(es, es[i].code) is None,
{
    let code = es[i].code;
    assert(exists|j: int| 0 <= j < es.len() && (#[trigger] es[j]).code == code);
    let j = choose|j: int| 0 <= j < es.len() && (#[trigger] es[j]).code == code;
    if j < i {
        lemma_sorted_pairwise(es, j, i);
    } else if i < j {
        lemma_sorted_pairwise(es, i, j);
    }
    assert(spec_find(es, code) == Some(es[i]));
}

/// A chain that meets a refused directory is refused.
pub proof fn lemma_chain_refuses(segs: Seq<Segment>, file_len: Option<u64>, dir: u64, levels: Seq<LevelModel>, visited: Seq<u64>)
    requires
        dir != 0,
        visited.len() < 0x1_0000_0000_0000_0000,
        spec_dir_step(segs, file_len, dir, levels.len() as usize, visited) is Fail,
    ensures
        spec_chain(segs, file_len, dir, levels, visited) is Fail,
{
}

/// A file whose header is sound but whose first directory breaks the
/// format, as `lemma_dir_defects` lists, is refused, whatever follows.
pub proof fn lemma_first_dir_refused(
    segs: Seq<Segment>,
    file_len: Option<u64>,
    header: Seq<u8>,
    count_bytes: Seq<u8>,
    body: Seq<u8>,
)
    requires
        lookup(segs, 0, 16) == Some(header),
        header.subrange(0, 8) == header_magic(),
        le_u64(header, 8) != 0,
        le_u64(header, 8) + 8 <= u64::MAX,
        lookup(segs, le_u64(header, 8) as int, le_u64(header, 8) + 8) == Some(count_bytes),
        le_u64(count_bytes, 0) > MAX_ENTRIES || (le_u64(header, 8) + 16 + 20 * le_u64(count_bytes, 0) <= u64::MAX
            && lookup(segs, le_u64(header, 8) as int, le_u64(header, 8) + 16 + 20 * le_u64(count_bytes, 0)) == Some(
            body,
        ) && (!entries_sorted(entries_of(body, le_u64(count_bytes, 0))) || spec_dir_fields(
            entries_of(body, le_u64(count_bytes, 0)),
        ) is None)),
    ensures
        spec_parse(segs, file_len) is Fail,
{
    let dir = le_u64(header, 8) as u64;
    lemma_dir_defects(segs, file_len, dir, 0, Seq::empty(), count_bytes, body);
    lemma_chain_refuses(segs, file_len, dir, Seq::empty(), Seq::empty());
}

#[derive(Clone, Copy)]
struct Entry {
    code: u16,
    ty: u16,
    count: u64,
    slot: u64,
}

impl View for Entry {
    type V = EntryModel;

    closed spec fn view(&self) -> EntryModel {
        EntryModel { code: self.code, ty: self.ty, count: self.count, slot: self.slot }
    }
}

spec fn entry_models(es: Seq<Entry>) -> Seq<EntryModel> {
    es.map_values(|e: Entry| e@)
}

/// Strictly increasing codes are pairwise distinct and ordered.
pub proof fn lemma_sorted_pairwise(es: Seq<EntryModel>, i: int, j: int)
    requires
        entries_sorted(es),
        0 <= i < j < es.len(),
    ensures
        es[i].code < es[j].code,
    decreases j - i,
{
    if j > i + 1 {
        lemma_sorted_pairwise(es, i, j - 1);
        assert(es[j - 1].code < es[j].code);
    } else {
        assert(es[i].code < es[i + 1].code);
    }
}

/// Decodes the `count` entries of a directory and the offset of the next one,
/// rejecting entries whose codes do not strictly increase.
fn parse_entries(body: &[u8], count: u64) -> (r: Result<(Vec<Entry>, u64), Error>)
    requires
        count <= MAX_ENTRIES,
        body@.len() == 16 + 20 * count,
    ensures
        r is Ok <==> entries_sorted(entries_of(body@, count as int)),
        r matches Ok(t) ==> entry_models(t.0@) == entries_of(body@, count as int) && t.1 == le_u64(
            body@,
            8 + 20 * count,
        ),
        r matches Err(e) ==> e == Error::MalformedFile("directory entries are not strictly sorted"),
{
    let ghost es = entries_of(body@, count as int);
    let n = count as usize;
    let mut out: Vec<Entry> = Vec::new();
    let mut i: usize = 0;
    while i < n
        invariant
            n == count,
            count <= MAX_ENTRIES,
            body@.len() == 16 + 20 * count,
            es == entries_of(body@, count as int),
            i <= n,
            out@.len() == i,
            forall|k: int| 0 <= k < i ==> (#[trigger] out@[k])@ == es[k],
            forall|k: int| 0 <= k < i - 1 ==> (#[trigger] es[k]).code < es[k + 1].code,
        decreases n - i,
    {
        let off = 8 + i * 20;
        proof {
            lemma_le_u16_bounds(body@, off as int);
            lemma_le_u16_bounds(body@, off + 2);
            lemma_le_u64_bounds(body@, off + 4);
            lemma_le_u64_bounds(body@, off + 12);
        }
        let code = match read_u16(body, off) {
            Ok(v) => v,
            Err(e) => return Err(e),
        };
        if i > 0 && code <= out[i - 1].code {
            proof {
                assert(es[i - 1].code >= es[i as int].code);
                assert(!entries_sorted(es));
            }
            return Err(Error::MalformedFile("directory entries are not strictly sorted"));
        }
        let ty = match read_u16(body, off + 2) {
            Ok(v) => v,
            Err(e) => return Err(e),
        };
        let cnt = match read_u64(body, off + 4) {
            Ok(v) => v,
            Err(e) => return Err(e),
        };
        let slot = match read_u64(body, off + 12) {
            Ok(v) => v,
            Err(e) => return Err(e),
        };
        out.push(Entry { code, ty, count: cnt, slot });
        i = i + 1;
    }
    proof {
        lemma_le_u64_bounds(body@, 8 + 20 * count);
    }
    let next = match read_u64(body, 8 + n * 20) {
        Ok(v) => v,
        Err(e) => return Err(e),
    };
    assert(entry_models(out@) =~= es);
    Ok((out, next))
}

/// The entry with a given code.
fn find(entries: &Vec<Entry>, code: u16) -> (r: Option<Entry>)
    requires
        entries_sorted(entry_models(entries@)),
    ensures
        r is Some <==> spec_find(entry_models(entries@), code) is Some,
        r matches Some(e) ==> e@ == spec_find(entry_models(entries@), code).unwrap(),
{
    let ghost es = entry_models(entries@);
    let mut i: usize = 0;
    while i < entries.len()
        invariant
            es == entry_models(entries@),
            entries_sorted(es),
            i <= entries@.len(),
            forall|k: int| 0 <= k < i ==> (#[trigger] es[k]).code != code,
        decreases entries@.len() - i,
    {
        assert(es[i as int] == entries@[i as int]@);
        if entries[i].code == code {
            proof {
                let j = choose|j: int| 0 <= j < es.len() && (#[trigger] es[j]).code == code;
                if j < i {
                } else if j > i {
                    lemma_sorted_pairwise(es, i as int, j);
                }
            }
            return Some(entries[i]);
        }
        i = i + 1;
    }
    None
}

fn scalar_u16(entries: &Vec<Entry>, code: u16) -> (r: Result<u16, Error>)
    requires
        entries_sorted(entry_models(entries@)),
    ensures
        r is Ok <==> spec_scalar_u16(entry_models(entries@), code) is Some,
        r matches Ok(v) ==> v == spec_scalar_u16(entry_models(entries@), code).unwrap(),
        r matches Err(e) ==> e == Error::MalformedFile(scalar_u16_error(entry_models(entries@), code)),
{
    match find(entries, code) {
        None => Err(Error::MalformedFile("missing required entry")),
        Some(e) => {
            if e.ty != TYPE_U16 || e.count != 1 {
                return Err(Error::MalformedFile("invalid scalar u16 entry"));
            }
            Ok((e.slot % 0x1_0000) as u16)
        },
    }
}

fn scalar_u32_or_u16(entries: &Vec<Entry>, code: u16) -> (r: Result<u64, Error>)
    requires
        entries_sorted(entry_models(entries@)),
    ensures
        r is Ok <==> spec_scalar_dim(entry_models(entries@), code) is Some,
        r matches Ok(v) ==> v == spec_scalar_dim(entry_models(entries@), code).unwrap(),
        r matches Err(e) ==> e == Error::MalformedFile(scalar_dim_error(entry_models(entries@), code)),
{
    match find(entries, code) {
        None => Err(Error::MalformedFile("missing required entry")),
        Some(e) => {
            if e.count != 1 {
                return Err(Error::MalformedFile("invalid scalar entry count"));
            }
            if e.ty == TYPE_U16 {
                Ok(e.slot % 0x1_0000)
            } else if e.ty == TYPE_U32 {
                Ok(e.slot % 0x1_0000_0000)
            } else {
                Err(Error::MalformedFile("invalid scalar entry type"))
            }
        },
    }
}

fn bits_valid(entries: &Vec<Entry>, channels: u16) -> (r: bool)
    requires
        entries_sorted(entry_models(entries@)),
    ensures
        r == spec_bits_valid(entry_models(entries@), channels),
{
    match find(entries, TAG_BITS) {
        None => false,
        Some(e) => e.ty == TYPE_U16 && e.slot % 0x1_0000 == 8 && (e.count == 1 || (channels == 3 && e.count == 3
            && (e.slot / 0x1_0000) % 0x1_0000 == 8 && (e.slot / 0x1_0000_0000) % 0x1_0000 == 8)),
    }
}

fn ycbcr_subsampling(entries: &Vec<Entry>) -> (r: Option<(u16, u16)>)
    requires
        entries_sorted(entry_models(entries@)),
    ensures
        r == spec_ycbcr(entry_models(entries@)),
{
    match find(entries, TAG_YCBCR_SUBSAMPLING) {
        None => None,
        Some(e) => {
            if e.ty != TYPE_U16 || e.count != 2 {
                return None;
            }
            Some(((e.slot % 0x1_0000) as u16, ((e.slot / 0x1_0000) % 0x1_0000) as u16))
        },
    }
}

fn array_entry(entries: &Vec<Entry>, code: u16, tiles: u64) -> (r: Result<Entry, Error>)
    requires
        entries_sorted(entry_models(entries@)),
    ensures
        r is Ok <==> spec_array_entry(entry_models(entries@), code, tiles as int) is Some,
        r matches Ok(e) ==> e@ == spec_array_entry(entry_models(entries@), code, tiles as int).unwrap(),
        r matches Err(e) ==> e == Error::MalformedFile(array_entry_error(entry_models(entries@), code)),
{
    match find(entries, code) {
        None => Err(Error::MalformedFile("missing required entry")),
        Some(e) => {
            if (e.ty != TYPE_U32 && e.ty != TYPE_U64) || e.count != tiles {
                return Err(Error::MalformedFile("invalid tile array entry"));
            }
            Ok(e)
        },
    }
}

struct Fields {
    width: u64,
    height: u64,
    tile_width: u64,
    tile_height: u64,
    codec: Codec,
    color_model: ColorModel,
    channels: u16,
    ycbcr_subsampling: Option<(u16, u16)>,
    offsets: Entry,
    counts: Entry,
}

impl View for Fields {
    type V = DirFields;

    closed spec fn view(&self) -> DirFields {
        DirFields {
            width: self.width,
            height: self.height,
            tile_width: self.tile_width,
            tile_height: self.tile_height,
            codec: self.codec,
            color_model: self.color_model,
            channels: self.channels,
            ycbcr_subsampling: self.ycbcr_subsampling,
            offsets: self.offsets@,
            counts: self.counts@,
        }
    }
}

/// Validates the scalar entries of a directory.
fn dir_fields(entries: &Vec<Entry>) -> (r: Result<Fields, Error>)
    requires
        entries_sorted(entry_models(entries@)),
    ensures
        r is Ok <==> spec_dir_fields(entry_models(entries@)) is Some,
        r matches Ok(f) ==> f@ == spec_dir_fields(entry_models(entries@)).unwrap(),
        r matches Err(e) ==> e == Error::MalformedFile(dir_fields_error(entry_models(entries@))),
{
    let width = match scalar_u32_or_u16(entries, TAG_WIDTH) {
        Ok(v) => v,
        Err(e) => return Err(e),
    };
    let height = match scalar_u32_or_u16(entries, TAG_HEIGHT) {
        Ok(v) => v,
        Err(e) => return Err(e),
    };
    let codec_code = match scalar_u16(entries, TAG_CODEC) {
        Ok(v) => v,
        Err(e) => return Err(e),
    };
    let codec = match Codec::from_code(codec_code) {
        Ok(c) => c,
        Err(e) => return Err(e),
    };
    let color_code = match scalar_u16(entries, TAG_COLOR) {
        Ok(v) => v,
        Err(e) => return Err(e),
    };
    let color_model = match ColorModel::from_code(color_code) {
        Ok(c) => c,
        Err(e) => return Err(e),
    };
    let channels = match scalar_u16(entries, TAG_CHANNELS) {
        Ok(v) => v,
        Err(e) => return Err(e),
    };
    if channels != 1 && channels != 3 {
        return Err(Error::MalformedFile("invalid channels"));
    }
    let matches = match color_model {
        ColorModel::WhiteIsZero | ColorModel::BlackIsZero => channels == 1,
        ColorModel::Rgb | ColorModel::YCbCr => channels == 3,
    };
    if !matches {
        return Err(Error::MalformedFile("color model does not match channel count"));
    }
    if !bits_valid(entries, channels) {
        return Err(Error::MalformedFile("invalid bit depth"));
    }
    let interleave = match scalar_u16(entries, TAG_INTERLEAVE) {
        Ok(v) => v,
        Err(e) => return Err(e),
    };
    if interleave != 1 {
        return Err(Error::MalformedFile("invalid interleave"));
    }
    let tile_width = match scalar_u32_or_u16(entries, TAG_TILE_WIDTH) {
        Ok(v) => v,
        Err(e) => return Err(e),
    };
    let tile_height = match scalar_u32_or_u16(entries, TAG_TILE_HEIGHT) {
        Ok(v) => v,
        Err(e) => return Err(e),
    };
    if width == 0 || height == 0 || tile_width == 0 || tile_height == 0 {
        return Err(Error::MalformedFile("zero dimension"));
    }
    if tile_width % 16 != 0 || tile_height % 16 != 0 {
        return Err(Error::MalformedFile("tile size is not a multiple of 16"));
    }
    let (_, _, tiles) = match tile_count(width, height, tile_width, tile_height) {
        Ok(t) => t,
        Err(_) => return Err(Error::MalformedFile("tile count overflows u64")),
    };
    let offsets = match array_entry(entries, TAG_TILE_OFFSETS, tiles) {
        Ok(e) => e,
        Err(e) => return Err(e),
    };
    let counts = match array_entry(entries, TAG_TILE_COUNTS, tiles) {
        Ok(e) => e,
        Err(e) => return Err(e),
    };
    let ycbcr_subsampling = ycbcr_subsampling(entries);
    Ok(Fields {
        width,
        height,
        tile_width,
        tile_height,
        codec,
        color_model,
        channels,
        ycbcr_subsampling,
        offsets,
        counts,
    })
}

enum ArrayParse {
    Need(u64, u64),
    Done(Vec<u64>),
}

spec fn array_parse_matches(r: Result<ArrayParse, Error>, spec: ArrayRead) -> bool {
    match spec {
        ArrayRead::Fail(m) => r matches Err(e) && e == Error::MalformedFile(m),
        ArrayRead::Need(lo, hi) => r matches Ok(ArrayParse::Need(l, h)) && l == lo && h == hi,
        ArrayRead::Done(vs) => r matches Ok(ArrayParse::Done(v)) && v@ == vs,
    }
}

/// Resolves the values of an array entry, inline or referenced.
fn read_u64_array(cache: &Vec<Cached>, e: &Entry) -> (r: Result<ArrayParse, Error>)
    requires
        cache_wf(segments(cache@)),
    ensures
        array_parse_matches(r, spec_read_array(segments(cache@), e@)),
        r matches Ok(ArrayParse::Need(l, h)) ==> l <= h,
{
    let size: u64 = if e.ty == TYPE_U32 { 4 } else { 8 };
    let total = match e.count.checked_mul(size) {
        Some(t) => t,
        None => return Err(Error::MalformedFile("array length overflow")),
    };
    if total <= 8 {
        let mut out: Vec<u64> = Vec::new();
        let mut k: u64 = 0;
        while k < e.count
            invariant
                e.count * size == total,
                total <= 8,
                size == elem_size(e.ty),
                k <= e.count,
                out@.len() == k,
                forall|j: int| 0 <= j < k ==> #[trigger] out@[j] == (if size == 4 {
                    slot_u32(e.slot, j) as u64
                } else {
                    e.slot
                }),
            decreases e.count - k,
        {
            if size == 4 {
                if k == 0 {
                    out.push(e.slot % 0x1_0000_0000);
                } else {
                    out.push(e.slot / 0x1_0000_0000);
                }
            } else {
                out.push(e.slot);
            }
            k = k + 1;
        }
        proof {
            let vs = Seq::new(
                e.count as nat,
                |k: int|
                    if size == 4 {
                        slot_u32(e.slot, k) as u64
                    } else {
                        e.slot
                    },
            );
            assert(out@ =~= vs);
        }
        return Ok(ArrayParse::Done(out));
    }
    if e.slot > u64::MAX - total {
        return Err(Error::MalformedFile("array range overflow"));
    }
    let end = e.slot + total;
    let bytes = match cache_lookup(cache, e.slot, end) {
        None => return Ok(ArrayParse::Need(e.slot, end)),
        Some(b) => b,
    };
    let blen = bytes.len();
    let mut out: Vec<u64> = Vec::new();
    let mut k: u64 = 0;
    while k < e.count
        invariant
            e.count * size == total,
            bytes@.len() == total,
            blen == total,
            size == elem_size(e.ty),
            k <= e.count,
            out@.len() == k,
            forall|j: int| 0 <= j < k ==> #[trigger] out@[j] == (if size == 4 {
                le_u32(bytes@, 4 * j) as u64
            } else {
                le_u64(bytes@, 8 * j) as u64
            }),
        decreases e.count - k,
    {
        proof {
            assert(k * size + size <= e.count * size) by (nonlinear_arith)
                requires k < e.count, size > 0;
        }
        if size == 4 {
            let v = match read_u32(bytes, (k * 4) as usize) {
                Ok(v) => v,
                Err(err) => return Err(err),
            };
            out.push(v as u64);
        } else {
            let v = match read_u64(bytes, (k * 8) as usize) {
                Ok(v) => v,
                Err(err) => return Err(err),
            };
            out.push(v);
        }
        k = k + 1;
    }
    proof {
        let vs = Seq::new(
            e.count as nat,
            |k: int|
                if size == 4 {
                    le_u32(bytes@, 4 * k) as u64
                } else {
                    le_u64(bytes@, 8 * k) as u64
                },
        );
        assert(out@ =~= vs);
    }
    Ok(ArrayParse::Done(out))
}

enum Array32Parse {
    Need(u64, u64),
    Done(Vec<u64>, Vec<u32>),
}

/// Resolves the values of a byte-count array, which must all fit in 32 bits.
#[verifier::loop_isolation(false)]
fn read_u32_array(cache: &Vec<Cached>, e: &Entry) -> (r: Result<Array32Parse, Error>)
    requires
        cache_wf(segments(cache@)),
    ensures
        match spec_read_array(segments(cache@), e@) {
            ArrayRead::Fail(m) => r matches Err(err) && err == Error::MalformedFile(m),
            ArrayRead::Need(lo, hi) => r matches Ok(Array32Parse::Need(l, h)) && l == lo && h == hi,
            ArrayRead::Done(vs) => if forall|k: int| 0 <= k < vs.len() ==> #[trigger] vs[k] <= u32::MAX {
                r matches Ok(Array32Parse::Done(wide, narrow)) && wide@ == vs && narrow@ == vs.map_values(
                    |v: u64| v as u32,
                )
            } else {
                r matches Err(err) && err == Error::MalformedFile("tile byte count exceeds u32")
            },
        },
        r matches Ok(Array32Parse::Need(l, h)) ==> l <= h,
{
    let ghost spec = spec_read_array(segments(cache@), e@);
    let wide = match read_u64_array(cache, e) {
        Err(err) => return Err(err),
        Ok(ArrayParse::Need(lo, hi)) => return Ok(Array32Parse::Need(lo, hi)),
        Ok(ArrayParse::Done(v)) => v,
    };
    assert(spec matches ArrayRead::Done(vs) && vs == wide@);
    let mut narrow: Vec<u32> = Vec::new();
    let mut k: usize = 0;
    while k < wide.len()
        invariant
            spec matches ArrayRead::Done(vs) && vs == wide@,
            k <= wide@.len(),
            narrow@.len() == k,
            forall|j: int| 0 <= j < k ==> #[trigger] wide@[j] <= u32::MAX,
            forall|j: int| 0 <= j < k ==> #[trigger] narrow@[j] == wide@[j] as u32,
        decreases wide@.len() - k,
    {
        if wide[k] > 0xffff_ffff {
            proof {
                let vs = wide@;
                assert(vs[k as int] > u32::MAX);
                assert(!(forall|j: int| 0 <= j < vs.len() ==> #[trigger] vs[j] <= u32::MAX));
            }
            return Err(Error::MalformedFile("tile byte count exceeds u32"));
        }
        narrow.push(wide[k] as u32);
        assert(narrow@[k as int] == wide@[k as int] as u32);
        k = k + 1;
    }
    assert(narrow@ =~= wide@.map_values(|v: u64| v as u32));
    Ok(Array32Parse::Done(wide, narrow))
}

enum LevelParse {
    Need(u64, u64),
    Done(Level),
}

spec fn level_parse_matches(r: Result<LevelParse, Error>, spec: LevelRead) -> bool {
    match spec {
        LevelRead::Fail(m) => r matches Err(e) && e == Error::MalformedFile(m),
        LevelRead::Need(lo, hi) => r matches Ok(LevelParse::Need(l, h)) && l == lo && h == hi,
        LevelRead::Done(m) => r matches Ok(LevelParse::Done(l)) && l@ == m && m.wf(),
    }
}

/// Parses one directory's entries into a level.
#[verifier::loop_isolation(false)]
fn parse_level(cache: &Vec<Cached>, file_len: Option<u64>, index: usize, entries: &Vec<Entry>) -> (r: Result<LevelParse, Error>)
    requires
        cache_wf(segments(cache@)),
        entries_sorted(entry_models(entries@)),
    ensures
        level_parse_matches(r, spec_parse_level(segments(cache@), file_len, index, entry_models(entries@))),
        r matches Ok(LevelParse::Done(l)) ==> l@.index == index,
        r matches Ok(LevelParse::Need(l, h)) ==> l <= h,
{
    reveal(spec_parse_level);
    let ghost segs = segments(cache@);
    let ghost es = entry_models(entries@);
    let f = match dir_fields(entries) {
        Ok(f) => f,
        Err(e) => return Err(e),
    };
    let ghost fs = spec_dir_fields(es).unwrap();
    let offsets = match read_u64_array(cache, &f.offsets) {
        Err(e) => return Err(e),
        Ok(ArrayParse::Need(lo, hi)) => return Ok(LevelParse::Need(lo, hi)),
        Ok(ArrayParse::Done(v)) => v,
    };
    assert(spec_read_array(segs, fs.offsets) matches ArrayRead::Done(vs) && vs == offsets@);
    let (wide, counts) = match read_u32_array(cache, &f.counts) {
        Err(e) => return Err(e),
        Ok(Array32Parse::Need(lo, hi)) => return Ok(LevelParse::Need(lo, hi)),
        Ok(Array32Parse::Done(w, n)) => (w, n),
    };
    assert(spec_read_array(segs, fs.counts) matches ArrayRead::Done(vs) && vs == wide@);
    assert(forall|j: int| 0 <= j < wide@.len() ==> #[trigger] wide@[j] <= u32::MAX);
    let mut k: usize = 0;
    while k < counts.len()
        invariant
            k <= counts@.len(),
            offsets@.len() == counts@.len(),
            wide@.len() == counts@.len(),
            forall|j: int| 0 <= j < counts@.len() ==> #[trigger] wide@[j] == counts@[j],
            forall|j: int| 0 <= j < k ==> #[trigger] offsets@[j] + wide@[j] <= u64::MAX,
        decreases counts@.len() - k,
    {
        if offsets[k] > u64::MAX - counts[k] as u64 {
            proof {
                let cnts = wide@;
                let offs = offsets@;
                assert(!(offs[k as int] + cnts[k as int] <= u64::MAX));
                assert(!(forall|j: int| 0 <= j < cnts.len() ==> #[trigger] offs[j] + cnts[j] <= u64::MAX));
            }
            return Err(Error::MalformedFile("tile byte range overflows"));
        }
        k = k + 1;
    }
    if let Some(len) = file_len {
        let mut k: usize = 0;
        while k < counts.len()
            invariant
                k <= counts@.len(),
                offsets@.len() == counts@.len(),
                wide@.len() == counts@.len(),
                forall|j: int| 0 <= j < counts@.len() ==> #[trigger] wide@[j] == counts@[j],
                forall|j: int| 0 <= j < counts@.len() ==> #[trigger] offsets@[j] + wide@[j] <= u64::MAX,
                forall|j: int| 0 <= j < k ==> #[trigger] offsets@[j] + wide@[j] <= len,
            decreases counts@.len() - k,
        {
            if offsets[k] + counts[k] as u64 > len {
                proof {
                    let cnts = wide@;
                    let offs = offsets@;
                    assert(!(offs[k as int] + cnts[k as int] <= len));
                    assert(!(forall|j: int| 0 <= j < cnts.len() ==> #[trigger] offs[j] + cnts[j] <= len));
                }
                return Err(Error::MalformedFile("tile byte range exceeds file length"));
            }
            k = k + 1;
        }
    }
    match Level::new(
        index,
        f.width,
        f.height,
        f.tile_width,
        f.tile_height,
        f.codec,
        f.color_model,
        f.channels,
        f.ycbcr_subsampling,
        offsets,
        counts,
    ) {
        Ok(level) => Ok(LevelParse::Done(level)),
        Err(e) => Err(Error::MalformedFile("tile array length does not match tile count")),
    }
}

enum DirParse {
    Need(u64, u64),
    Level(Level, u64),
}

/// Reads the directory at `dir` as level `index`.
fn parse_directory(cache: &Vec<Cached>, file_len: Option<u64>, dir: u64, index: usize, visited: &Vec<u64>) -> (r: Result<DirParse, Error>)
    requires
        cache_wf(segments(cache@)),
    ensures
        match spec_dir_step(segments(cache@), file_len, dir, index, visited@) {
            DirStep::Fail(m) => r matches Err(e) && e == Error::MalformedFile(m),
            DirStep::Need(lo, hi) => r matches Ok(DirParse::Need(l, h)) && l == lo && h == hi,
            DirStep::Level(m, next) => r matches Ok(DirParse::Level(l, n)) && l@ == m && n == next && m.wf(),
        },
        r matches Ok(DirParse::Level(l, _)) ==> l@.index == index,
        r matches Ok(DirParse::Need(l, h)) ==> l <= h,
{
    reveal(spec_dir_step);
    let vlen = visited.len();
    let mut j: usize = 0;
    while j < vlen
        invariant
            vlen == visited@.len(),
            j <= vlen,
            forall|k: int| 0 <= k < j ==> visited@[k] != dir,
        decreases vlen - j,
    {
        if visited[j] == dir {
            assert(visited@.contains(dir));
            reveal(spec_dir_step);
            return Err(Error::MalformedFile("directory cycle"));
        }
        j = j + 1;
    }
    assert(!visited@.contains(dir));
    if dir > u64::MAX - 8 {
        return Err(Error::MalformedFile("directory range overflow"));
    }
    let count_bytes = match cache_lookup(cache, dir, dir + 8) {
        None => return Ok(DirParse::Need(dir, dir + 8)),
        Some(b) => b,
    };
    proof {
        lemma_le_u64_bounds(count_bytes@, 0);
    }
    let n = match read_u64(count_bytes, 0) {
        Ok(v) => v,
        Err(e) => return Err(e),
    };
    if n > MAX_ENTRIES {
        return Err(Error::MalformedFile("too many directory entries"));
    }
    let body_len = 16 + n * ENTRY_LEN;
    if dir > u64::MAX - body_len {
        return Err(Error::MalformedFile("directory range overflow"));
    }
    let body = match cache_lookup(cache, dir, dir + body_len) {
        None => return Ok(DirParse::Need(dir, dir + body_len)),
        Some(b) => b,
    };
    let (entries, next) = match parse_entries(body, n) {
        Ok(t) => t,
        Err(e) => return Err(e),
    };
    proof {
        lemma_le_u64_bounds(body@, 8 + 20 * n);
    }
    match parse_level(cache, file_len, index, &entries) {
        Err(e) => Err(e),
        Ok(LevelParse::Need(lo, hi)) => Ok(DirParse::Need(lo, hi)),
        Ok(LevelParse::Done(level)) => Ok(DirParse::Level(level, next)),
    }
}

enum Parse {
    Need(u64, u64, Vec<Level>),
    Done(Vec<Level>),
}

spec fn level_models(ls: Seq<Level>) -> Seq<LevelModel> {
    ls.map_values(|l: Level| l@)
}

/// Levels numbered by position and well formed.
pub open spec fn levels_wf(ls: Seq<LevelModel>) -> bool {
    forall|i: int| 0 <= i < ls.len() ==> (#[trigger] ls[i]).index == i && ls[i].wf()
}

spec fn parse_matches(r: Result<Parse, Error>, p: SpecParse) -> bool {
    match p {
        SpecParse::Fail(m) => r matches Err(e) && e == Error::MalformedFile(m),
        SpecParse::Need { lo, hi, levels } => r matches Ok(Parse::Need(l, h, ls)) && l == lo && h == hi
            && level_models(ls@) == levels,
        SpecParse::Done { levels } => r matches Ok(Parse::Done(ls)) && level_models(ls@) == levels,
    }
}

/// Parses the cached bytes as far as they go.
fn try_parse(cache: &Vec<Cached>, file_len: Option<u64>) -> (r: Result<Parse, Error>)
    requires
        cache_wf(segments(cache@)),
    ensures
        parse_matches(r, spec_parse(segments(cache@), file_len)),
        r matches Ok(Parse::Need(_, _, ls)) ==> levels_wf(level_models(ls@)),
        r matches Ok(Parse::Done(ls)) ==> ls@.len() > 0 && levels_wf(level_models(ls@)),
        r matches Ok(Parse::Need(l, h, _)) ==> l <= h,
{
    let ghost segs = segments(cache@);
    let header = match cache_lookup(cache, 0, 16) {
        None => {
            let none: Vec<Level> = Vec::new();
            assert(level_models(none@) =~= Seq::<LevelModel>::empty());
            return Ok(Parse::Need(0, 16, none));
        },
        Some(h) => h,
    };
    let magic: [u8; 8] = [0x49, 0x49, 0x2b, 0x00, 0x08, 0x00, 0x00, 0x00];
    let mut i: usize = 0;
    while i < 8
        invariant
            i <= 8,
            header@.len() == 16,
            segs == segments(cache@),
            lookup(segs, 0, 16) == Some(header@),
            magic@ == header_magic(),
            forall|k: int| 0 <= k < i ==> header@[k] == #[trigger] magic@[k],
        decreases 8 - i,
    {
        if header[i] != magic[i] {
            proof {
                assert(header@.subrange(0, 8)[i as int] != header_magic()[i as int]);
            }
            return Err(Error::MalformedFile("invalid header"));
        }
        i = i + 1;
    }
    assert(header@.subrange(0, 8) =~= header_magic());
    proof {
        lemma_le_u64_bounds(header@, 8);
    }
    let first = match read_u64(header, 8) {
        Ok(v) => v,
        Err(e) => return Err(e),
    };
    if first == 0 {
        return Err(Error::MalformedFile("missing first directory"));
    }
    let mut dir = first;
    let mut levels: Vec<Level> = Vec::new();
    let mut visited: Vec<u64> = Vec::new();
    assert(level_models(levels@) =~= Seq::<LevelModel>::empty());
    while dir != 0
        invariant
            cache_wf(segs),
            segs == segments(cache@),
            spec_parse(segs, file_len) == spec_chain(segs, file_len, dir, level_models(levels@), visited@),
            levels@.len() == visited@.len(),
            levels_wf(level_models(levels@)),
            levels@.len() == 0 ==> dir != 0,
        decreases 0x1_0000_0000_0000_0000 - visited@.len(),
    {
        let vlen = visited.len();
        let index = levels.len();
        let (level, next) = match parse_directory(cache, file_len, dir, index, &visited) {
            Err(e) => return Err(e),
            Ok(DirParse::Need(lo, hi)) => return Ok(Parse::Need(lo, hi, levels)),
            Ok(DirParse::Level(level, next)) => (level, next),
        };
        let ghost before = level_models(levels@);
        levels.push(level);
        assert(level_models(levels@) =~= before.push(level@));
        visited.push(dir);
        dir = next;
    }
    Ok(Parse::Done(levels))
}

/// What the reader asks for, or reports, after a chunk.
#[allow(inconsistent_fields)]
#[derive(Debug)]
pub enum ReadStatus<'a> {
    /// The bytes of `req` are needed; `zif` describes the levels parsed so
    /// far, if any.
    Need { req: Request, zif: Option<ZifView<'a>> },
    /// The whole directory chain has been parsed.
    Done { zif: ZifView<'a> },
}

/// The state of a reader, as plain values.
pub struct ReaderModel {
    /// The bytes received so far, as runs.
    pub known: Seq<Segment>,
    /// The metadata parsed by the last successful step.
    pub zif: Option<ZifModel>,
    /// Whether the last successful step parsed the whole chain.
    pub done: bool,
    /// End of the range most recently requested.
    pub expected_end: u64,
    /// The file length, once a chunk has recorded it.
    pub file_len: Option<u64>,
    /// While every chunk received so far began at offset 0, the end of the
    /// bytes received (0 before any); `None` once a chunk began elsewhere.
    pub prefix: Option<u64>,
}

/// What `prefix` becomes when a chunk is received: a chunk without bytes
/// changes nothing, one that begins at 0 extends the prefix, any other ends it.
pub open spec fn next_prefix(prefix: Option<u64>, chunk: ChunkModel) -> Option<u64> {
    if chunk.bytes.len() == 0 {
        prefix
    } else {
        match prefix {
            Some(e) => if chunk.start == 0 {
                Some(if e < chunk.end { chunk.end } else { e })
            } else {
                None
            },
            None => None,
        }
    }
}

/// The file length the reader checks tiles against: the one a chunk
/// recorded, else, while every chunk so far began at offset 0, the end of the
/// bytes received; unknown otherwise.
pub open spec fn known_file_len(m: ReaderModel) -> Option<u64> {
    match m.file_len {
        Some(n) => Some(n),
        None => match m.prefix {
            Some(e) => if e > 0 {
                Some(e)
            } else {
                None
            },
            None => None,
        },
    }
}

/// The metadata of a list of levels.
pub open spec fn zif_model(levels: Seq<LevelModel>) -> ZifModel {
    ZifModel { levels, kind: spec_classify(levels) }
}

impl Clone for Reader {
    fn clone(&self) -> (r: Self)
        ensures
            r@ == self@,
    {
        proof {
            use_type_invariant(self);
        }
        let mut cache: Vec<Cached> = Vec::new();
        let mut i: usize = 0;
        while i < self.cache.len()
            invariant
                i <= self.cache@.len(),
                cache@.len() == i,
                forall|j: int| 0 <= j < i ==> (#[trigger] cache@[j])@ == self.cache@[j]@,
            decreases self.cache@.len() - i,
        {
            cache.push(self.cache[i].clone());
            i = i + 1;
        }
        assert(segments(cache@) =~= segments(self.cache@));
        let zif = match &self.zif {
            Some(z) => Some(z.clone()),
            None => None,
        };
        Reader {
            cache,
            zif,
            done: self.done,
            expected_end: self.expected_end,
            file_len: self.file_len,
            prefix: self.prefix,
        }
    }
}

/// The Sans-IO reader.
#[derive(Debug)]
pub struct Reader {
    cache: Vec<Cached>,
    zif: Option<Zif>,
    done: bool,
    expected_end: u64,
    file_len: Option<u64>,
    prefix: Option<u64>,
}

impl View for Reader {
    type V = ReaderModel;

    closed spec fn view(&self) -> ReaderModel {
        ReaderModel {
            known: segments(self.cache@),
            zif: match self.zif {
                Some(z) => Some(z@),
                None => None,
            },
            done: self.done,
            expected_end: self.expected_end,
            file_len: self.file_len,
            prefix: self.prefix,
        }
    }
}

impl Default for Reader {
    fn default() -> (r: Self)
        ensures
            r@.known.len() == 0,
            r@.zif is None,
            !r@.done,
            r@.expected_end == 16,
            r@.file_len is None,
            r@.prefix == Some(0u64),
    {
        Self::new()
    }
}

impl Reader {
    #[verifier::type_invariant]
    pub open spec fn inv(self) -> bool {
        &&& cache_wf(self@.known)
        &&& self@.done ==> self@.zif is Some
        &&& self@.prefix matches Some(e) ==> forall|p: int| #[trigger] byte_at(self@.known, p) is Some <==> 0 <= p < e
    }

    /// Creates a new Sans-IO reader.
    pub fn new() -> (r: Self)
        ensures
            r@.known.len() == 0,
            r@.zif is None,
            !r@.done,
            r@.expected_end == 16,
            r@.file_len is None,
            r@.prefix == Some(0u64),
    {
        let r = Self { cache: Vec::new(), zif: None, done: false, expected_end: 16, file_len: None, prefix: Some(0) };
        assert(segments(r.cache@) =~= Seq::<Segment>::empty());
        r
    }

    /// Advances the reader with a coherent chunk of bytes. The chunk may be
    /// empty, exactly the requested range, a superset of it, or the whole
    /// file; bytes that disagree with bytes already received are rejected.
    /// Tiles are checked to end inside the file when its length is known:
    /// from a chunk that records it, or, while every chunk received began at
    /// offset 0, as the end of the bytes received.
    pub fn advance(&mut self, chunk: Chunk) -> (r: Result<ReadStatus<'_>, Error>)
        ensures
            chunk@.bytes.len() > 0 && conflicts(old(self)@.known, chunk@.start as int, chunk@.bytes) ==> (r matches Err(
                e,
            ) && e == Error::InvalidInput("overlapping chunk bytes differ") && final(self)@ == old(self)@),
            !(chunk@.bytes.len() > 0 && conflicts(old(self)@.known, chunk@.start as int, chunk@.bytes)) ==> {
                &&& cache_wf(final(self)@.known)
                &&& chunk@.bytes.len() == 0 ==> final(self)@.known == old(self)@.known
                &&& forall|p: int| #[trigger] byte_at(final(self)@.known, p) == if chunk@.start <= p < chunk@.end {
                    Some(chunk@.bytes[p - chunk@.start])
                } else {
                    byte_at(old(self)@.known, p)
                }
                &&& final(self)@.file_len == if chunk@.file_len is Some {
                    chunk@.file_len
                } else {
                    old(self)@.file_len
                }
                &&& final(self)@.prefix == next_prefix(old(self)@.prefix, chunk@)
                &&& match spec_parse(final(self)@.known, known_file_len(final(self)@)) {
                    SpecParse::Fail(m) => r matches Err(e) && e == Error::MalformedFile(m),
                    SpecParse::Need { lo, hi, levels } => {
                        &&& r matches Ok(ReadStatus::Need { req, zif }) && req@.start == lo && req@.end == hi
                            && (levels.len() == 0 <==> zif is None) && (zif matches Some(v) ==> v@ == zif_model(levels))
                        &&& final(self)@.expected_end == hi
                        &&& !final(self)@.done
                        &&& final(self)@.zif == if levels.len() == 0 {
                            None
                        } else {
                            Some(zif_model(levels))
                        }
                    },
                    SpecParse::Done { levels } => {
                        &&& r matches Ok(ReadStatus::Done { zif }) && zif@ == zif_model(levels)
                        &&& final(self)@.done
                        &&& final(self)@.zif == Some(zif_model(levels))
                    },
                }
            },
    {
        proof {
            use_type_invariant(&*self);
            use_type_invariant(&chunk);
        }
        let declared = chunk.file_len();
        let (range, bytes) = chunk.into_parts();
        if bytes.len() > 0 {
            if cache_conflicts(&self.cache, range.start, bytes.as_slice()) {
                return Err(Error::InvalidInput("overlapping chunk bytes differ"));
            }
            let next = match self.prefix {
                Some(e) => if range.start == 0 {
                    Some(if e < range.end { range.end } else { e })
                } else {
                    None
                },
                None => None,
            };
            self.prefix = None;
            let mut cache: Vec<Cached> = Vec::new();
            std::mem::swap(&mut cache, &mut self.cache);
            cache_merge(&mut cache, range.start, bytes.as_slice());
            self.cache = cache;
            proof {
                if let Some(e2) = next {
                    let e1 = old(self)@.prefix.unwrap();
                    assert forall|p: int| #[trigger] byte_at(self@.known, p) is Some <==> 0 <= p < e2 by {
                        assert(byte_at(old(self)@.known, p) is Some <==> 0 <= p < e1);
                    }
                }
            }
            self.prefix = next;
        }
        if declared.is_some() {
            self.file_len = declared;
        }
        let known: Option<u64> = match self.file_len {
            Some(n) => Some(n),
            None => match self.prefix {
                Some(e) => if e > 0 {
                    Some(e)
                } else {
                    None
                },
                None => None,
            },
        };
        match try_parse(&self.cache, known) {
            Err(e) => Err(e),
            Ok(Parse::Done(levels)) => {
                assert(forall|i: int| 0 <= i < levels@.len() ==> level_models(levels@)[i] == (#[trigger] levels@[i])@);
                self.zif = Some(Zif::new(levels));
                self.done = true;
                match &self.zif {
                    Some(z) => Ok(ReadStatus::Done { zif: ZifView::new(z) }),
                    None => Err(Error::Incomplete),
                }
            },
            Ok(Parse::Need(lo, hi, levels)) => {
                self.expected_end = hi;
                self.done = false;
                assert(forall|i: int| 0 <= i < levels@.len() ==> level_models(levels@)[i] == (#[trigger] levels@[i])@);
                if levels.len() == 0 {
                    self.zif = None;
                } else {
                    self.zif = Some(Zif::new(levels));
                }
                let req = match Request::new(lo..hi) {
                    Ok(req) => req,
                    Err(e) => return Err(e),
                };
                match &self.zif {
                    Some(z) => Ok(ReadStatus::Need { req, zif: Some(ZifView::new(z)) }),
                    None => Ok(ReadStatus::Need { req, zif: None }),
                }
            },
        }
    }

    /// Returns the parsed metadata: the whole file once the reader is done,
    /// or the levels parsed so far while it still needs bytes.
    pub fn zif(&self) -> (r: Result<&Zif, Error>)
        ensures
            r is Ok <==> self@.zif is Some,
            r matches Ok(z) ==> Some(z@) == self@.zif,
            r matches Err(e) ==> e is Incomplete,
    {
        match &self.zif {
            Some(z) => Ok(z),
            None => Err(Error::Incomplete),
        }
    }

    /// Consumes the reader and returns the parsed metadata once the whole
    /// chain has been parsed.
    pub fn into_zif(self) -> (r: Result<Zif, Error>)
        ensures
            r is Ok <==> self@.done,
            r matches Ok(z) ==> Some(z@) == self@.zif,
            r matches Err(e) ==> e is Incomplete,
    {
        proof {
            use_type_invariant(&self);
        }
        if !self.done {
            return Err(Error::Incomplete);
        }
        match self.zif {
            Some(z) => Ok(z),
            None => Err(Error::Incomplete),
        }
    }
}
} // verus!
