//! What the writer writes, the reader reads back: a file that holds what a
//! writer has emitted parses into the writer's levels.
use vstd::prelude::*;

use crate::format::{le_u64, lemma_u64_roundtrip, u64_bytes};
use crate::format::{
    TAG_BITS, TAG_CHANNELS, TAG_CODEC, TAG_COLOR, TAG_HEIGHT, TAG_INTERLEAVE, TAG_TILE_COUNTS, TAG_TILE_HEIGHT,
    TAG_TILE_OFFSETS, TAG_TILE_WIDTH, TAG_WIDTH, TAG_YCBCR_SUBSAMPLING, TYPE_U16, TYPE_U32, TYPE_U64,
};
use crate::model::{Codec, ColorModel};
use crate::reader::{
    byte_at, cache_wf, elem_size, entries_sorted, entries_of, lemma_lookup_is_known_bytes, lemma_sorted_pairwise,
    lookup, slot_u16, slot_u32, spec_array_entry, spec_bits_valid, spec_dir_fields, spec_find, spec_parse_level,
    spec_read_array, spec_scalar_dim, spec_scalar_u16, spec_ycbcr, ArrayRead, DirFields, EntryModel, LevelRead,
    Segment, header_magic, spec_dir_step, spec_chain, spec_parse, DirStep, SpecParse,
};
use crate::model::{lemma_codec_code_roundtrip, lemma_color_model_code_roundtrip, LevelModel};
use crate::format::{lemma_div_ceil, spec_tile_grid};
use crate::writer::{
    dir_entries, entry_count, has_subsampling_entry, lemma_entries_bytes_len, slots_sized, spec_encode_directory,
    u32s_bytes, u64s_bytes, zeros, LevelLayout, RawEntry, WriterModel, next_dir, dir_size, lemma_wf_level_pub,
    lemma_wf_basics_pub, lemma_directory_len,
};

use crate::file_image::{
    decoded, lemma_le_window, lemma_entries_read, lemma_slot_u32, lemma_slot_u16, lemma_slot_u16_pair,
    lemma_slot_u32_pair, lemma_slot_u64, lemma_u64s_read, lemma_u32s_read,
};

verus! {

/// The value the reader finds in the tile offsets slot.
pub open spec fn offsets_slot_value(offsets: Seq<u64>, pos: u64) -> u64 {
    if offsets.len() == 1 {
        offsets[0]
    } else {
        pos
    }
}

/// The value the reader finds in the tile byte counts slot.
pub open spec fn counts_slot_value(counts: Seq<u32>, pos: u64) -> u64 {
    if counts.len() == 0 {
        0
    } else if counts.len() == 1 {
        counts[0] as u64
    } else if counts.len() == 2 {
        (counts[0] + counts[1] * 0x1_0000_0000) as u64
    } else {
        pos
    }
}

/// The entries the reader decodes from the directory of level `l`.
#[verifier::opaque]
pub open spec fn read_entries(l: LevelLayout, codec: Codec, color: ColorModel, channels: u16, ycbcr: (u16, u16)) -> Seq<
    EntryModel,
> {
    let base = seq![
        EntryModel { code: TAG_WIDTH, ty: TYPE_U32, count: 1, slot: (l.width as u32) as u64 },
        EntryModel { code: TAG_HEIGHT, ty: TYPE_U32, count: 1, slot: (l.height as u32) as u64 },
        EntryModel { code: TAG_BITS, ty: TYPE_U16, count: 1, slot: 8 },
        EntryModel { code: TAG_CODEC, ty: TYPE_U16, count: 1, slot: codec.spec_code() as u64 },
        EntryModel { code: TAG_COLOR, ty: TYPE_U16, count: 1, slot: color.spec_code() as u64 },
        EntryModel { code: TAG_CHANNELS, ty: TYPE_U16, count: 1, slot: channels as u64 },
        EntryModel { code: TAG_INTERLEAVE, ty: TYPE_U16, count: 1, slot: 1 },
        EntryModel { code: TAG_TILE_WIDTH, ty: TYPE_U32, count: 1, slot: l.tile_width as u64 },
        EntryModel { code: TAG_TILE_HEIGHT, ty: TYPE_U32, count: 1, slot: l.tile_height as u64 },
        EntryModel {
            code: TAG_TILE_OFFSETS,
            ty: TYPE_U64,
            count: l.offsets.len() as u64,
            slot: offsets_slot_value(l.offsets, l.offsets_base),
        },
        EntryModel {
            code: TAG_TILE_COUNTS,
            ty: TYPE_U32,
            count: l.counts.len() as u64,
            slot: counts_slot_value(l.counts, l.counts_base),
        },
    ];
    if has_subsampling_entry(codec, color) {
        base.push(
            EntryModel { code: TAG_YCBCR_SUBSAMPLING, ty: TYPE_U16, count: 2, slot: (ycbcr.0 + ycbcr.1 * 0x1_0000) as u64 },
        )
    } else {
        base
    }
}

#[verifier::spinoff_prover]
pub proof fn lemma_decoded_entries(l: LevelLayout, codec: Codec, color: ColorModel, channels: u16, ycbcr: (u16, u16))
    ensures
        slots_sized(dir_entries(l, codec, color, channels, ycbcr)),
        dir_entries(l, codec, color, channels, ycbcr).len() == entry_count(codec, color),
        dir_entries(l, codec, color, channels, ycbcr).map_values(|e: RawEntry| decoded(e)) == read_entries(
            l,
            codec,
            color,
            channels,
            ycbcr,
        ),
{
    reveal(read_entries);
    let es = dir_entries(l, codec, color, channels, ycbcr);
    let rs = read_entries(l, codec, color, channels, ycbcr);
    lemma_slot_u32(l.width as u32);
    lemma_slot_u32(l.height as u32);
    lemma_slot_u16(8);
    lemma_slot_u16(codec.spec_code());
    lemma_slot_u16(color.spec_code());
    lemma_slot_u16(channels);
    lemma_slot_u16(1);
    lemma_slot_u32(l.tile_width);
    lemma_slot_u32(l.tile_height);
    if l.offsets.len() == 1 {
        lemma_slot_u64(l.offsets[0]);
    } else {
        lemma_slot_u64(l.offsets_base);
    }
    if l.counts.len() == 0 {
        assert(le_u64(zeros(8), 0) == 0);
    } else if l.counts.len() == 1 {
        lemma_slot_u32(l.counts[0]);
    } else if l.counts.len() == 2 {
        lemma_slot_u32_pair(l.counts[0], l.counts[1]);
    } else {
        lemma_slot_u64(l.counts_base);
    }
    lemma_slot_u16_pair(ycbcr.0, ycbcr.1);
    assert(es.map_values(|e: RawEntry| decoded(e)) =~= rs);
}

/// The entries the reader decodes from an encoded directory.
#[verifier::spinoff_prover]
pub proof fn lemma_directory_entries(
    l: LevelLayout,
    next: u64,
    codec: Codec,
    color: ColorModel,
    channels: u16,
    ycbcr: (u16, u16),
)
    ensures
        entries_of(spec_encode_directory(l, next, codec, color, channels, ycbcr), entry_count(codec, color))
            == read_entries(l, codec, color, channels, ycbcr),
        le_u64(spec_encode_directory(l, next, codec, color, channels, ycbcr), 0) == entry_count(codec, color),
        le_u64(spec_encode_directory(l, next, codec, color, channels, ycbcr), 8 + 20 * entry_count(codec, color))
            == next,
{
    reveal(spec_encode_directory);
    let es = dir_entries(l, codec, color, channels, ycbcr);
    let n = entry_count(codec, color);
    let head = u64_bytes(n as u64);
    let tail = u64_bytes(next);
    let enc = spec_encode_directory(l, next, codec, color, channels, ycbcr);
    lemma_decoded_entries(l, codec, color, channels, ycbcr);
    lemma_slot_u64(n as u64);
    lemma_slot_u64(next);
    lemma_entries_bytes_len(es);
    assert forall|i: int| 0 <= i < n implies #[trigger] entries_of(enc, n)[i] == read_entries(
        l,
        codec,
        color,
        channels,
        ycbcr,
    )[i] by {
        lemma_entries_read(head, es, tail, i);
        assert(es.map_values(|e: RawEntry| decoded(e))[i] == decoded(es[i]));
    }
    assert(entries_of(enc, n) =~= read_entries(l, codec, color, channels, ycbcr));
    assert(enc.subrange(0, 8) =~= head.subrange(0, 8));
    lemma_le_window(enc, 0, head, 0, 8);
    let o = 8 + 20 * n;
    assert(enc.subrange(o, o + 8) =~= tail.subrange(0, 8));
    lemma_le_window(enc, o, tail, 0, 8);
}

/// In a directory with strictly increasing codes, looking a code up finds
/// the entry that has it.
pub proof fn lemma_find_entry(es: Seq<EntryModel>, i: int)
    requires
        entries_sorted(es),
        0 <= i < es.len(),
    ensures
        spec_find(es, es[i].code) == Some(es[i]),
{
    let code = es[i].code;
    assert(es[i].code == code);
    let j = choose|j: int| 0 <= j < es.len() && (#[trigger] es[j]).code == code;
    if j < i {
        lemma_sorted_pairwise(es, j, i);
    } else if i < j {
        lemma_sorted_pairwise(es, i, j);
    }
}

/// A cache whose known bytes include those of `file` at their positions.
pub open spec fn knows_file(segs: Seq<Segment>, file: Seq<u8>) -> bool {
    &&& cache_wf(segs)
    &&& forall|p: int| 0 <= p < file.len() ==> #[trigger] byte_at(segs, p) == Some(file[p])
}

/// A range of the file is looked up as the file's bytes.
pub proof fn lemma_lookup_file(segs: Seq<Segment>, file: Seq<u8>, lo: int, hi: int)
    requires
        knows_file(segs, file),
        0 <= lo < hi <= file.len(),
    ensures
        lookup(segs, lo, hi) == Some(file.subrange(lo, hi)),
{
    lemma_lookup_is_known_bytes(segs, lo, hi);
    assert forall|p: int| lo <= p < hi implies #[trigger] byte_at(segs, p) is Some by {
        assert(byte_at(segs, p) == Some(file[p]));
    }
    let s = lookup(segs, lo, hi).unwrap();
    assert forall|k: int| 0 <= k < hi - lo implies s[k] == file.subrange(lo, hi)[k] by {
        assert(byte_at(segs, lo + k) == Some(s[k]));
        assert(byte_at(segs, lo + k) == Some(file[lo + k]));
    }
    assert(s =~= file.subrange(lo, hi));
}

/// The tile offsets of a level, as the reader reads them.
#[verifier::spinoff_prover]
pub proof fn lemma_read_offsets(segs: Seq<Segment>, file: Seq<u8>, l: LevelLayout)
    requires
        knows_file(segs, file),
        l.offsets.len() >= 1,
        l.offsets.len() > 1 ==> l.offsets_base + 8 * l.offsets.len() <= file.len() && file.subrange(
            l.offsets_base as int,
            l.offsets_base + 8 * l.offsets.len(),
        ) == u64s_bytes(l.offsets),
        file.len() <= u64::MAX,
    ensures
        spec_read_array(
            segs,
            EntryModel {
                code: TAG_TILE_OFFSETS,
                ty: TYPE_U64,
                count: l.offsets.len() as u64,
                slot: offsets_slot_value(l.offsets, l.offsets_base),
            },
        ) == ArrayRead::Done(l.offsets),
{
    let e = EntryModel {
        code: TAG_TILE_OFFSETS,
        ty: TYPE_U64,
        count: l.offsets.len() as u64,
        slot: offsets_slot_value(l.offsets, l.offsets_base),
    };
    let n = l.offsets.len() as int;
    assert(elem_size(e.ty) == 8);
    if n == 1 {
        match spec_read_array(segs, e) {
            ArrayRead::Done(v) => {
                assert(v =~= l.offsets);
            },
            _ => {},
        }
    } else {
        let lo = l.offsets_base as int;
        lemma_lookup_file(segs, file, lo, lo + 8 * n);
        let b = file.subrange(lo, lo + 8 * n);
        match spec_read_array(segs, e) {
            ArrayRead::Done(v) => {
                assert forall|k: int| 0 <= k < n implies v[k] == l.offsets[k] by {
                    lemma_u64s_read(l.offsets, k);
                }
                assert(v =~= l.offsets);
            },
            _ => {},
        }
    }
}

/// The tile byte counts of a level, widened to 64 bits, as the reader reads
/// them.
#[verifier::spinoff_prover]
pub proof fn lemma_read_counts(segs: Seq<Segment>, file: Seq<u8>, l: LevelLayout)
    requires
        knows_file(segs, file),
        l.counts.len() >= 1,
        l.counts.len() > 2 ==> l.counts_base + 4 * l.counts.len() <= file.len() && file.subrange(
            l.counts_base as int,
            l.counts_base + 4 * l.counts.len(),
        ) == u32s_bytes(l.counts),
        file.len() <= u64::MAX,
    ensures
        spec_read_array(
            segs,
            EntryModel {
                code: TAG_TILE_COUNTS,
                ty: TYPE_U32,
                count: l.counts.len() as u64,
                slot: counts_slot_value(l.counts, l.counts_base),
            },
        ) == ArrayRead::Done(l.counts.map_values(|c: u32| c as u64)),
{
    let e = EntryModel {
        code: TAG_TILE_COUNTS,
        ty: TYPE_U32,
        count: l.counts.len() as u64,
        slot: counts_slot_value(l.counts, l.counts_base),
    };
    let n = l.counts.len() as int;
    let want = l.counts.map_values(|c: u32| c as u64);
    assert(elem_size(e.ty) == 4);
    if n <= 2 {
        match spec_read_array(segs, e) {
            ArrayRead::Done(v) => {
                if n == 2 {
                    assert(slot_u32(e.slot, 1) == l.counts[1]);
                }
                assert(v =~= want);
            },
            _ => {},
        }
    } else {
        let lo = l.counts_base as int;
        lemma_lookup_file(segs, file, lo, lo + 4 * n);
        match spec_read_array(segs, e) {
            ArrayRead::Done(v) => {
                assert forall|k: int| 0 <= k < n implies v[k] == want[k] by {
                    lemma_u32s_read(l.counts, k);
                }
                assert(v =~= want);
            },
            _ => {},
        }
    }
}

/// The level the reader builds from level `l` of a writer with these
/// parameters, at position `index` of the chain.
pub open spec fn read_level_of(
    l: LevelLayout,
    index: int,
    codec: Codec,
    color: ColorModel,
    channels: u16,
    ycbcr: (u16, u16),
) -> LevelModel {
    LevelModel {
        index: index as usize,
        width: l.width,
        height: l.height,
        tile_width: l.tile_width as u64,
        tile_height: l.tile_height as u64,
        tiles_across: l.tiles_across,
        tiles_down: l.tiles_down,
        codec,
        color_model: color,
        channels,
        ycbcr_subsampling: if has_subsampling_entry(codec, color) {
            Some(ycbcr)
        } else {
            None
        },
        offsets: l.offsets,
        counts: l.counts,
    }
}

/// What a level parse needs of the file: a valid level whose dimensions fit
/// the 32-bit entries, whose out-of-directory arrays hold its tile offsets
/// and byte counts, and whose tiles lie inside the file.
pub open spec fn level_in_file(l: LevelLayout, file: Seq<u8>) -> bool {
    &&& l.wf()
    &&& l.width <= u32::MAX
    &&& l.height <= u32::MAX
    &&& l.offsets.len() > 1 ==> l.offsets_base + 8 * l.offsets.len() <= file.len() && file.subrange(
        l.offsets_base as int,
        l.offsets_base + 8 * l.offsets.len(),
    ) == u64s_bytes(l.offsets)
    &&& l.counts.len() > 2 ==> l.counts_base + 4 * l.counts.len() <= file.len() && file.subrange(
        l.counts_base as int,
        l.counts_base + 4 * l.counts.len(),
    ) == u32s_bytes(l.counts)
    &&& forall|k: int| 0 <= k < l.offsets.len() ==> #[trigger] l.offsets[k] + l.counts[k] <= file.len()
}

pub proof fn lemma_read_entries_sorted(l: LevelLayout, codec: Codec, color: ColorModel, channels: u16, ycbcr: (u16, u16))
    ensures
        entries_sorted(read_entries(l, codec, color, channels, ycbcr)),
        read_entries(l, codec, color, channels, ycbcr).len() == entry_count(codec, color),
        read_entries(l, codec, color, channels, ycbcr)[9] == (EntryModel {
            code: TAG_TILE_OFFSETS,
            ty: TYPE_U64,
            count: l.offsets.len() as u64,
            slot: offsets_slot_value(l.offsets, l.offsets_base),
        }),
        read_entries(l, codec, color, channels, ycbcr)[10] == (EntryModel {
            code: TAG_TILE_COUNTS,
            ty: TYPE_U32,
            count: l.counts.len() as u64,
            slot: counts_slot_value(l.counts, l.counts_base),
        }),
{
    reveal(read_entries);
}

pub proof fn lemma_read_entries_codes(l: LevelLayout, codec: Codec, color: ColorModel, channels: u16, ycbcr: (u16, u16))
    ensures
        ({
            let es = read_entries(l, codec, color, channels, ycbcr);
            &&& es[0].code == TAG_WIDTH
            &&& es[1].code == TAG_HEIGHT
            &&& es[2].code == TAG_BITS
            &&& es[3].code == TAG_CODEC
            &&& es[4].code == TAG_COLOR
            &&& es[5].code == TAG_CHANNELS
            &&& es[6].code == TAG_INTERLEAVE
            &&& es[7].code == TAG_TILE_WIDTH
            &&& es[8].code == TAG_TILE_HEIGHT
            &&& es[9].code == TAG_TILE_OFFSETS
            &&& es[10].code == TAG_TILE_COUNTS
            &&& has_subsampling_entry(codec, color) ==> es[11].code == TAG_YCBCR_SUBSAMPLING
            &&& forall|j: int| 0 <= j < 11 ==> (#[trigger] es[j]).code < TAG_YCBCR_SUBSAMPLING
        }),
{
    reveal(read_entries);
}

#[verifier::spinoff_prover]
pub proof fn lemma_read_entries_find(l: LevelLayout, codec: Codec, color: ColorModel, channels: u16, ycbcr: (u16, u16))
    ensures
        ({
            let es = read_entries(l, codec, color, channels, ycbcr);
            &&& spec_find(es, TAG_WIDTH) == Some(es[0])
            &&& spec_find(es, TAG_HEIGHT) == Some(es[1])
            &&& spec_find(es, TAG_BITS) == Some(es[2])
            &&& spec_find(es, TAG_CODEC) == Some(es[3])
            &&& spec_find(es, TAG_COLOR) == Some(es[4])
            &&& spec_find(es, TAG_CHANNELS) == Some(es[5])
            &&& spec_find(es, TAG_INTERLEAVE) == Some(es[6])
            &&& spec_find(es, TAG_TILE_WIDTH) == Some(es[7])
            &&& spec_find(es, TAG_TILE_HEIGHT) == Some(es[8])
            &&& spec_find(es, TAG_TILE_OFFSETS) == Some(es[9])
            &&& spec_find(es, TAG_TILE_COUNTS) == Some(es[10])
            &&& spec_find(es, TAG_YCBCR_SUBSAMPLING) == if has_subsampling_entry(codec, color) {
                Some(es[11])
            } else {
                None
            }
        }),
{
    let es = read_entries(l, codec, color, channels, ycbcr);
    lemma_read_entries_sorted(l, codec, color, channels, ycbcr);
    lemma_read_entries_codes(l, codec, color, channels, ycbcr);
    lemma_find_entry(es, 0);
    lemma_find_entry(es, 1);
    lemma_find_entry(es, 2);
    lemma_find_entry(es, 3);
    lemma_find_entry(es, 4);
    lemma_find_entry(es, 5);
    lemma_find_entry(es, 6);
    lemma_find_entry(es, 7);
    lemma_find_entry(es, 8);
    lemma_find_entry(es, 9);
    lemma_find_entry(es, 10);
    if has_subsampling_entry(codec, color) {
        lemma_find_entry(es, 11);
    } else {
        assert(es.len() == 11);
        assert(!(exists|j: int| 0 <= j < es.len() && (#[trigger] es[j]).code == TAG_YCBCR_SUBSAMPLING));
    }
}

#[verifier::spinoff_prover]
pub proof fn lemma_dir_scalars(l: LevelLayout, codec: Codec, color: ColorModel, channels: u16, ycbcr: (u16, u16))
    requires
        l.width <= u32::MAX,
        l.height <= u32::MAX,
    ensures
        ({
            let es = read_entries(l, codec, color, channels, ycbcr);
            &&& spec_scalar_dim(es, TAG_WIDTH) == Some(l.width)
            &&& spec_scalar_dim(es, TAG_HEIGHT) == Some(l.height)
            &&& spec_scalar_u16(es, TAG_CODEC) == Some(codec.spec_code())
            &&& spec_scalar_u16(es, TAG_COLOR) == Some(color.spec_code())
            &&& spec_scalar_u16(es, TAG_CHANNELS) == Some(channels)
            &&& spec_scalar_u16(es, TAG_INTERLEAVE) == Some(1u16)
            &&& spec_scalar_dim(es, TAG_TILE_WIDTH) == Some(l.tile_width as u64)
            &&& spec_scalar_dim(es, TAG_TILE_HEIGHT) == Some(l.tile_height as u64)
            &&& spec_bits_valid(es, channels)
            &&& spec_ycbcr(es) == if has_subsampling_entry(codec, color) {
                Some(ycbcr)
            } else {
                None
            }
        }),
{
    reveal(read_entries);
    let es = read_entries(l, codec, color, channels, ycbcr);
    lemma_read_entries_find(l, codec, color, channels, ycbcr);
    assert(slot_u16(8, 0) == 8);
    assert(slot_u16(1, 0) == 1);
    assert(slot_u16(channels as u64, 0) == channels);
    assert(slot_u16(codec.spec_code() as u64, 0) == codec.spec_code());
    assert(slot_u16(color.spec_code() as u64, 0) == color.spec_code());
    assert(slot_u32(l.width as u64, 0) == l.width);
    assert(slot_u32(l.height as u64, 0) == l.height);
    assert(slot_u32(l.tile_width as u64, 0) == l.tile_width);
    assert(slot_u32(l.tile_height as u64, 0) == l.tile_height);
    let y = (ycbcr.0 + ycbcr.1 * 0x1_0000) as u64;
    assert(slot_u16(y, 0) == ycbcr.0 && slot_u16(y, 1) == ycbcr.1);
}

#[verifier::spinoff_prover]
pub proof fn lemma_dir_fields(l: LevelLayout, codec: Codec, color: ColorModel, channels: u16, ycbcr: (u16, u16))
    requires
        l.wf(),
        l.width <= u32::MAX,
        l.height <= u32::MAX,
        color.matches_channels(channels),
    ensures
        spec_dir_fields(read_entries(l, codec, color, channels, ycbcr)) == Some(
            DirFields {
                width: l.width,
                height: l.height,
                tile_width: l.tile_width as u64,
                tile_height: l.tile_height as u64,
                codec,
                color_model: color,
                channels,
                ycbcr_subsampling: if has_subsampling_entry(codec, color) {
                    Some(ycbcr)
                } else {
                    None
                },
                offsets: read_entries(l, codec, color, channels, ycbcr)[9],
                counts: read_entries(l, codec, color, channels, ycbcr)[10],
            },
        ),
{
    let es = read_entries(l, codec, color, channels, ycbcr);
    lemma_read_entries_find(l, codec, color, channels, ycbcr);
    lemma_dir_scalars(l, codec, color, channels, ycbcr);
    lemma_read_entries_sorted(l, codec, color, channels, ycbcr);
    lemma_codec_code_roundtrip(codec, 0);
    lemma_color_model_code_roundtrip(color, 0);
    let grid = spec_tile_grid(l.width as int, l.height as int, l.tile_width as int, l.tile_height as int);
    assert(grid.2 == l.offsets.len());
    assert(spec_array_entry(es, TAG_TILE_OFFSETS, grid.2) == Some(es[9]));
    assert(spec_array_entry(es, TAG_TILE_COUNTS, grid.2) == Some(es[10]));
}

/// A directory written for level `l` parses back into that level.
#[verifier::spinoff_prover]
pub proof fn lemma_level_parse(
    segs: Seq<Segment>,
    file: Seq<u8>,
    file_len: Option<u64>,
    index: usize,
    l: LevelLayout,
    codec: Codec,
    color: ColorModel,
    channels: u16,
    ycbcr: (u16, u16),
)
    requires
        knows_file(segs, file),
        file.len() <= u64::MAX,
        file_len matches Some(n) ==> n >= file.len(),
        level_in_file(l, file),
        color.matches_channels(channels),
    ensures
        spec_parse_level(segs, file_len, index, read_entries(l, codec, color, channels, ycbcr)) == LevelRead::Done(
            read_level_of(l, index as int, codec, color, channels, ycbcr),
        ),
{
    reveal(spec_parse_level);
    let es = read_entries(l, codec, color, channels, ycbcr);
    lemma_dir_fields(l, codec, color, channels, ycbcr);
    lemma_read_entries_sorted(l, codec, color, channels, ycbcr);
    assert(l.offsets.len() >= 1) by {
        lemma_div_ceil(l.width as int, l.tile_width as int);
        lemma_div_ceil(l.height as int, l.tile_height as int);
        assert(l.tiles_across * l.tiles_down >= 1) by (nonlinear_arith)
            requires l.tiles_across * l.tile_width >= l.width, l.width > 0, l.tile_width > 0,
                l.tiles_down * l.tile_height >= l.height, l.height > 0, l.tile_height > 0,
                l.tiles_across >= 0, l.tiles_down >= 0;
    }
    lemma_read_offsets(segs, file, l);
    lemma_read_counts(segs, file, l);
    let cnts = l.counts.map_values(|c: u32| c as u64);
    assert(cnts.map_values(|v: u64| v as u32) =~= l.counts);
    assert forall|k: int| 0 <= k < cnts.len() implies #[trigger] l.offsets[k] + cnts[k] <= file.len() by {
        assert(l.offsets[k] + l.counts[k] <= file.len());
    }
}

/// The header of a file whose first directory is at `dir`.
pub open spec fn header_for(dir: u64) -> Seq<u8> {
    header_magic() + u64_bytes(dir)
}

/// The directory offsets of a writer's levels, in chain order.
pub open spec fn dir_offsets(m: WriterModel) -> Seq<u64> {
    Seq::new(m.levels.len(), |i: int| m.levels[i].dir_offset)
}

/// The levels the reader builds from a writer's levels.
pub open spec fn read_levels(m: WriterModel) -> Seq<LevelModel> {
    Seq::new(
        m.levels.len(),
        |i: int| read_level_of(m.levels[i], i, m.codec, m.color_model, m.channels, m.ycbcr_subsampling),
    )
}

/// `file` holds what writer `m` has written: the header pointing at the
/// first directory, every directory encoded at its place with the offset of
/// the next one, every level's arrays and tiles inside the file, and
/// distinct directories.
pub open spec fn realizes(file: Seq<u8>, m: WriterModel) -> bool {
    &&& m.initialized
    &&& m.levels.len() <= usize::MAX
    &&& file.len() == m.file_len
    &&& file.subrange(0, 16) == header_for(m.levels[0].dir_offset)
    &&& forall|i: int|
        0 <= i < m.levels.len() ==> file.subrange(
            (#[trigger] m.levels[i]).dir_offset as int,
            m.levels[i].dir_offset + m.dir_size(),
        ) == spec_encode_directory(
            m.levels[i],
            next_dir(m.levels, i),
            m.codec,
            m.color_model,
            m.channels,
            m.ycbcr_subsampling,
        )
    &&& forall|i: int| 0 <= i < m.levels.len() ==> level_in_file(#[trigger] m.levels[i], file)
    &&& forall|i: int, j: int|
        0 <= i < j < m.levels.len() ==> (#[trigger] m.levels[i]).dir_offset != (#[trigger] m.levels[j]).dir_offset
}

/// The directory of level `j` of a written file is read as that level,
/// followed by the next directory.
#[verifier::spinoff_prover]
pub proof fn lemma_dir_step(segs: Seq<Segment>, file: Seq<u8>, file_len: Option<u64>, m: WriterModel, j: int)
    requires
        m.wf(),
        realizes(file, m),
        knows_file(segs, file),
        file_len matches Some(n) ==> n >= file.len(),
        0 <= j < m.levels.len(),
    ensures
        spec_dir_step(segs, file_len, m.levels[j].dir_offset, j as usize, dir_offsets(m).take(j)) == DirStep::Level(
            read_levels(m)[j],
            next_dir(m.levels, j),
        ),
{
    reveal(spec_dir_step);
    lemma_wf_level_pub(m, j);
    lemma_wf_basics_pub(m);
    let l = m.levels[j];
    let dir = l.dir_offset as int;
    let dsize = m.dir_size();
    let visited = dir_offsets(m).take(j);
    assert(!visited.contains(l.dir_offset)) by {
        if visited.contains(l.dir_offset) {
            let k = choose|k: int| 0 <= k < visited.len() && visited[k] == l.dir_offset;
            assert(m.levels[k].dir_offset == l.dir_offset);
        }
    }
    let enc = spec_encode_directory(l, next_dir(m.levels, j), m.codec, m.color_model, m.channels, m.ycbcr_subsampling);
    let n = crate::writer::entry_count(m.codec, m.color_model);
    lemma_directory_entries(l, next_dir(m.levels, j), m.codec, m.color_model, m.channels, m.ycbcr_subsampling);
    crate::writer::lemma_directory_len(l, next_dir(m.levels, j), m.codec, m.color_model, m.channels, m.ycbcr_subsampling);
    lemma_lookup_file(segs, file, dir, dir + 8);
    lemma_lookup_file(segs, file, dir, dir + dsize);
    let cb = file.subrange(dir, dir + 8);
    assert(cb.subrange(0, 8) =~= enc.subrange(0, 8));
    lemma_le_window(cb, 0, enc, 0, 8);
    assert(file.subrange(dir, dir + dsize) == enc);
    lemma_read_entries_sorted(l, m.codec, m.color_model, m.channels, m.ycbcr_subsampling);
    lemma_level_parse(segs, file, file_len, j as usize, l, m.codec, m.color_model, m.channels, m.ycbcr_subsampling);
}

/// From directory `j` on, the chain of a written file parses into the
/// remaining levels.
pub proof fn lemma_chain(segs: Seq<Segment>, file: Seq<u8>, file_len: Option<u64>, m: WriterModel, j: int)
    requires
        m.wf(),
        realizes(file, m),
        knows_file(segs, file),
        file_len matches Some(n) ==> n >= file.len(),
        0 <= j <= m.levels.len(),
    ensures
        spec_chain(
            segs,
            file_len,
            if j < m.levels.len() {
                m.levels[j].dir_offset
            } else {
                0
            },
            read_levels(m).take(j),
            dir_offsets(m).take(j),
        ) == (SpecParse::Done { levels: read_levels(m) }),
    decreases m.levels.len() - j,
{
    let n = m.levels.len() as int;
    if j == n {
        assert(read_levels(m).take(j) =~= read_levels(m));
    } else {
        lemma_wf_level_pub(m, j);
        lemma_dir_step(segs, file, file_len, m, j);
        lemma_chain(segs, file, file_len, m, j + 1);
        assert(read_levels(m).take(j).push(read_levels(m)[j]) =~= read_levels(m).take(j + 1));
        assert(dir_offsets(m).take(j).push(m.levels[j].dir_offset) =~= dir_offsets(m).take(j + 1));
        assert(read_levels(m).take(j).len() == j);
    }
}

/// A file that holds what a writer has written reads back as the writer's
/// levels: the reader, knowing the file's bytes (and, if it learnt it, a
/// length no shorter than the file), parses the whole chain into levels
/// with the writer's dimensions, tile sizes, codec, color model, channels,
/// subsampling and tile arrays, in chain order.
pub proof fn lemma_written_file_reads_back(segs: Seq<Segment>, file: Seq<u8>, file_len: Option<u64>, m: WriterModel)
    requires
        m.wf(),
        realizes(file, m),
        knows_file(segs, file),
        file_len matches Some(n) ==> n >= file.len(),
    ensures
        spec_parse(segs, file_len) == (SpecParse::Done { levels: read_levels(m) }),
{
    lemma_wf_basics_pub(m);
    lemma_wf_level_pub(m, 0);
    lemma_lookup_file(segs, file, 0, 16);
    let h = file.subrange(0, 16);
    let dir0 = m.levels[0].dir_offset;
    assert(h.subrange(0, 8) =~= header_magic());
    lemma_u64_roundtrip(dir0, header_magic(), Seq::empty());
    assert(header_magic() + u64_bytes(dir0) + Seq::<u8>::empty() =~= h);
    lemma_chain(segs, file, file_len, m, 0);
    assert(read_levels(m).take(0) =~= Seq::<LevelModel>::empty());
    assert(dir_offsets(m).take(0) =~= Seq::<u64>::empty());
}

} // verus!
