//! Writes keep a file whole: the writes a writer emits turn a file that
//! holds what it had written into one that holds what it has written now.
use vstd::prelude::*;

use crate::format::{u32_bytes, u64_bytes};
use crate::model::{Codec, ColorModel};
use crate::writer::{
    counts_slot, dir_entries, entries_bytes, entry_count, lemma_entries_bytes_len, offsets_slot, slots_sized,
    spec_encode_directory, zeros, LevelLayout, RawEntry, WriterModel, next_dir, dir_size, lemma_wf_level_pub,
    lemma_wf_basics_pub, OpModel, arrays_size, counts_prefix, dims_encodable, dirs_bytes, header_bytes, init_ops,
    initialized_model, lemma_prefix_nonneg_mono, offsets_prefix, zeroed, lemma_directory_len, tile_index, tile_model, tile_model_at,
    tile_ops, tile_target_ok, slot_of, arrays_start, init_tail, lemma_arrays_start, counts_array_size, u64s_bytes,
};

use crate::file_image::{
    write_at, apply_ops, lemma_slot_u32, lemma_slot_u32_pair, lemma_slot_u64, lemma_write_append, lemma_zero_u64s,
    lemma_zero_u32s, lemma_sub_mid, lemma_sub_last, lemma_write_inside, lemma_write_mid, lemma_entries_slot_write,
    lemma_u64s_update, lemma_u32s_update,
};
use crate::readback::{lemma_decoded_entries, level_in_file, realizes};

verus! {

#[verifier::spinoff_prover]
pub proof fn lemma_dirs_bytes(m: WriterModel, k: int)
    requires
        0 <= k <= m.levels.len(),
    ensures
        dirs_bytes(m, k).len() == k * m.dir_size(),
        forall|i: int|
            0 <= i < k ==> dirs_bytes(m, k).subrange(i * m.dir_size(), i * m.dir_size() + m.dir_size())
                == spec_encode_directory(
                #[trigger] m.levels[i],
                next_dir(m.levels, i),
                m.codec,
                m.color_model,
                m.channels,
                m.ycbcr_subsampling,
            ),
    decreases k,
{
    let d = m.dir_size();
    if k > 0 {
        lemma_dirs_bytes(m, k - 1);
        let prev = dirs_bytes(m, k - 1);
        let enc = spec_encode_directory(
            m.levels[k - 1],
            next_dir(m.levels, k - 1),
            m.codec,
            m.color_model,
            m.channels,
            m.ycbcr_subsampling,
        );
        lemma_directory_len(m.levels[k - 1], next_dir(m.levels, k - 1), m.codec, m.color_model, m.channels, m.ycbcr_subsampling);
        assert((k - 1) * d + d == k * d) by (nonlinear_arith);
        assert forall|i: int| 0 <= i < k implies dirs_bytes(m, k).subrange(i * d, i * d + d) == spec_encode_directory(
            #[trigger] m.levels[i],
            next_dir(m.levels, i),
            m.codec,
            m.color_model,
            m.channels,
            m.ycbcr_subsampling,
        ) by {
            if i < k - 1 {
                assert(i * d + d <= (k - 1) * d) by (nonlinear_arith)
                    requires i < k - 1, d >= 0;
                assert(0 <= i * d) by (nonlinear_arith)
                    requires i >= 0, d >= 0;
                assert(dirs_bytes(m, k).subrange(i * d, i * d + d) =~= prev.subrange(i * d, i * d + d));
            } else {
                assert(dirs_bytes(m, k).subrange(i * d, i * d + d) =~= enc);
            }
        }
    } else {
        assert(dirs_bytes(m, 0).len() == 0);
    }
}

/// The file the writes of `init_ops` create: the header, the directories and
/// the zeroed arrays, one after the other.
#[verifier::spinoff_prover]
pub proof fn lemma_init_file(m: WriterModel)
    requires
        m.wf(),
        !m.initialized,
    ensures
        apply_ops(Seq::empty(), init_ops(m)) == init_file(m),
        init_tail(m) >= arrays_size(m.levels),
        init_file(m).len() == m.file_len,
{
    let n = m.levels.len() as int;
    let d = m.dir_size();
    let h = header_bytes();
    let ds = dirs_bytes(m, n);
    lemma_wf_basics_pub(m);
    lemma_dirs_bytes(m, n);
    lemma_prefix_nonneg_mono(m.levels, 0, n);
    lemma_arrays_start(n, d);
    assert(h.len() == 16) by {
        lemma_slot_u64(16);
    }
    let ops = init_ops(m);
    let t = init_tail(m);
    reveal_with_fuel(apply_ops, 4);
    lemma_write_append(Seq::empty(), h);
    assert(Seq::<u8>::empty() + h =~= h);
    lemma_write_append(h, ds);
    assert(n * d >= 0) by (nonlinear_arith)
        requires n >= 0, d >= 0;
    if t > 0 {
        assert(ops.drop_last().drop_last() =~= seq![ops[0]]);
        assert(ops.drop_last() =~= seq![ops[0], ops[1]]);
        assert(seq![ops[0]].drop_last() =~= Seq::<OpModel>::empty());
        assert((16 + n * d) as u64 == 16 + n * d);
        lemma_write_append(h + ds, zeros(t));
    } else {
        assert(ops.drop_last() =~= seq![ops[0]]);
        assert(seq![ops[0]].drop_last() =~= Seq::<OpModel>::empty());
        assert(h + ds + zeros(t) =~= h + ds);
    }
}

/// The file that initializing writer `m` creates: the header, every
/// directory, then zeros up to the end of the arrays.
pub open spec fn init_file(m: WriterModel) -> Seq<u8> {
    header_bytes() + dirs_bytes(m, m.levels.len() as int) + zeros(init_tail(m))
}

#[verifier::spinoff_prover]
pub proof fn lemma_dirs_bytes_at(m: WriterModel, i: int)
    requires
        0 <= i < m.levels.len(),
    ensures
        dirs_bytes(m, m.levels.len() as int).len() == m.levels.len() * m.dir_size(),
        dirs_bytes(m, m.levels.len() as int).subrange(i * m.dir_size(), i * m.dir_size() + m.dir_size())
            == spec_encode_directory(m.levels[i], next_dir(m.levels, i), m.codec, m.color_model, m.channels, m.ycbcr_subsampling),
{
    lemma_dirs_bytes(m, m.levels.len() as int);
    assert(m.levels[i] == m.levels[i]);
}

#[verifier::spinoff_prover]
pub proof fn lemma_unwritten_dir_offset(m: WriterModel, i: int)
    requires
        m.wf(),
        !m.initialized,
        0 <= i < m.levels.len(),
    ensures
        m.levels[i].dir_offset == 16 + i * m.dir_size(),
{
    lemma_wf_basics_pub(m);
}

#[verifier::spinoff_prover]
pub proof fn lemma_init_dir(m: WriterModel, i: int)
    requires
        m.wf(),
        !m.initialized,
        0 <= i < m.levels.len(),
    ensures
        init_file(m).subrange(m.levels[i].dir_offset as int, m.levels[i].dir_offset + m.dir_size())
            == spec_encode_directory(m.levels[i], next_dir(m.levels, i), m.codec, m.color_model, m.channels, m.ycbcr_subsampling),
{
    let n = m.levels.len() as int;
    let d = m.dir_size();
    let ds = dirs_bytes(m, n);
    lemma_unwritten_dir_offset(m, i);
    lemma_dirs_bytes_at(m, i);
    lemma_slot_u64(16);
    assert(i * d + d <= n * d) by (nonlinear_arith)
        requires 0 <= i < n, d >= 0;
    assert(0 <= i * d) by (nonlinear_arith)
        requires 0 <= i, d >= 0;
    lemma_sub_mid(header_bytes(), ds, zeros(init_tail(m)), i * d, i * d + d);
}

#[verifier::spinoff_prover]
#[verifier::rlimit(50)]
pub proof fn lemma_init_level(m: WriterModel, i: int)
    requires
        m.wf(),
        !m.initialized,
        dims_encodable(m.levels),
        0 <= i < m.levels.len(),
    ensures
        level_in_file(m.levels[i], init_file(m)),
{
    let n = m.levels.len() as int;
    let d = m.dir_size();
    let file = init_file(m);
    let l = m.levels[i];
    lemma_wf_basics_pub(m);
    lemma_wf_level_pub(m, i);
    lemma_dirs_bytes(m, n);
    lemma_slot_u64(16);
    assert(n * d >= 0) by (nonlinear_arith)
        requires n >= 0, d >= 0;
    lemma_arrays_start(n, d);
    let g = arrays_start(n, d) - (16 + n * d);
    assert(zeroed(l));
    lemma_prefix_nonneg_mono(m.levels, i, i + 1);
    lemma_prefix_nonneg_mono(m.levels, i + 1, n);
    lemma_prefix_nonneg_mono(m.levels, 0, i);
    let z = zeros(init_tail(m));
    if l.offsets.len() > 1 {
        let x = g + offsets_prefix(m.levels, i);
        lemma_zero_u64s(l.offsets);
        lemma_sub_last(header_bytes(), dirs_bytes(m, n), z, x, x + 8 * l.offsets.len());
        assert(z.subrange(x, x + 8 * l.offsets.len()) =~= zeros(8 * (l.offsets.len() as int)));
    }
    if l.counts.len() > 2 {
        let x = g + offsets_prefix(m.levels, n) + counts_prefix(m.levels, i);
        lemma_zero_u32s(l.counts);
        lemma_sub_last(header_bytes(), dirs_bytes(m, n), z, x, x + 4 * l.counts.len());
        assert(z.subrange(x, x + 4 * l.counts.len()) =~= zeros(4 * (l.counts.len() as int)));
    }
    assert forall|k: int| 0 <= k < l.offsets.len() implies #[trigger] l.offsets[k] + l.counts[k] <= file.len() by {
        assert(l.offsets[k] == 0);
        assert(l.counts[k] == 0);
    }
}

/// The file that initializing a writer creates holds what the writer has
/// written: applied to an empty file, the writes of `init_ops` leave a file
/// that realizes the initialized writer.
#[verifier::spinoff_prover]
pub proof fn lemma_init_realizes(m: WriterModel)
    requires
        m.wf(),
        !m.initialized,
        dims_encodable(m.levels),
        m.levels.len() <= usize::MAX,
    ensures
        realizes(apply_ops(Seq::empty(), init_ops(m)), initialized_model(m)),
{
    let n = m.levels.len() as int;
    let d = m.dir_size();
    let file = init_file(m);
    let mi = initialized_model(m);
    lemma_init_file(m);
    lemma_wf_basics_pub(m);
    lemma_dirs_bytes(m, n);
    lemma_prefix_nonneg_mono(m.levels, 0, n);
    lemma_slot_u64(16);
    assert(n * d >= 0) by (nonlinear_arith)
        requires n >= 0, d >= 0;
    assert(m.levels[0].dir_offset == 16);
    assert(file.subrange(0, 16) =~= header_bytes());
    assert forall|i: int| 0 <= i < n implies file.subrange(
        (#[trigger] mi.levels[i]).dir_offset as int,
        mi.levels[i].dir_offset + mi.dir_size(),
    ) == spec_encode_directory(mi.levels[i], next_dir(mi.levels, i), mi.codec, mi.color_model, mi.channels, mi.ycbcr_subsampling) by {
        lemma_init_dir(m, i);
    }
    assert forall|i: int| 0 <= i < n implies level_in_file(#[trigger] mi.levels[i], file) by {
        lemma_init_level(m, i);
    }
    assert forall|i: int, j: int| 0 <= i < j < n implies (#[trigger] mi.levels[i]).dir_offset != (
    #[trigger] mi.levels[j]).dir_offset by {
        assert(i * d < j * d) by (nonlinear_arith)
            requires 0 <= i < j, d > 0;
    }
}

/// Whether file position `p` belongs to level `l`: its directory, or one of
/// its arrays kept outside the directory.
pub open spec fn owned(l: LevelLayout, dsize: int, p: int) -> bool {
    ||| l.dir_offset <= p < l.dir_offset + dsize
    ||| l.offsets.len() > 1 && l.offsets_base <= p < l.offsets_base + 8 * l.offsets.len()
    ||| l.counts.len() > 2 && l.counts_base <= p < l.counts_base + 4 * l.counts.len()
}

/// A level's directory and arrays do not overlap one another.
pub open spec fn regions_apart(l: LevelLayout, dsize: int) -> bool {
    &&& l.offsets.len() > 1 ==> l.offsets_base >= l.dir_offset + dsize || l.offsets_base + 8 * l.offsets.len()
        <= l.dir_offset
    &&& l.counts.len() > 2 ==> l.counts_base >= l.dir_offset + dsize || l.counts_base + 4 * l.counts.len()
        <= l.dir_offset
    &&& l.offsets.len() > 1 && l.counts.len() > 2 ==> l.offsets_base + 8 * l.offsets.len() <= l.counts_base
        || l.counts_base + 4 * l.counts.len() <= l.offsets_base
}

/// The header and the bytes of every level lie apart.
pub open spec fn separated(m: WriterModel) -> bool {
    &&& forall|i: int, p: int| 0 <= i < m.levels.len() && #[trigger] owned(m.levels[i], m.dir_size(), p) ==> 16 <= p
    &&& forall|i: int, j: int, p: int|
        0 <= i < m.levels.len() && 0 <= j < m.levels.len() && i != j && #[trigger] owned(m.levels[i], m.dir_size(), p)
            ==> !#[trigger] owned(m.levels[j], m.dir_size(), p)
    &&& forall|i: int| 0 <= i < m.levels.len() ==> regions_apart(#[trigger] m.levels[i], m.dir_size())
}

/// Where the bytes of level `i` of a file not yet written lie: its
/// directory among the directories, its arrays among the arrays.
pub open spec fn in_bands(levels: Seq<LevelLayout>, d: int, i: int, p: int) -> bool {
    let n = levels.len() as int;
    let a = arrays_start(n, d);
    let e = a + offsets_prefix(levels, n);
    ||| 16 + i * d <= p < 16 + i * d + d
    ||| a + offsets_prefix(levels, i) <= p < a + offsets_prefix(levels, i + 1)
    ||| e + counts_prefix(levels, i) <= p < e + counts_prefix(levels, i + 1)
}

#[verifier::spinoff_prover]
pub proof fn lemma_owned_in_bands(m: WriterModel, i: int, p: int)
    requires
        m.wf(),
        !m.initialized,
        0 <= i < m.levels.len(),
        owned(m.levels[i], m.dir_size(), p),
    ensures
        in_bands(m.levels, m.dir_size(), i, p),
{
    lemma_wf_basics_pub(m);
}

#[verifier::spinoff_prover]
pub proof fn lemma_bands_apart(levels: Seq<LevelLayout>, d: int, i: int, j: int, p: int)
    requires
        0 <= i < j < levels.len(),
        d > 0,
        in_bands(levels, d, i, p),
    ensures
        !in_bands(levels, d, j, p),
        16 <= p,
{
    let n = levels.len() as int;
    lemma_arrays_start(n, d);
    lemma_prefix_nonneg_mono(levels, i + 1, j);
    lemma_prefix_nonneg_mono(levels, j, j + 1);
    lemma_prefix_nonneg_mono(levels, j + 1, n);
    lemma_prefix_nonneg_mono(levels, 0, i);
    lemma_prefix_nonneg_mono(levels, i, i + 1);
    assert(i * d + d <= j * d) by (nonlinear_arith)
        requires i < j, d > 0;
    assert(j * d + d <= n * d) by (nonlinear_arith)
        requires j < n, d > 0;
    assert(0 <= i * d) by (nonlinear_arith)
        requires 0 <= i, d > 0;
}

#[verifier::spinoff_prover]
#[verifier::rlimit(50)]
pub proof fn lemma_init_separated(m: WriterModel)
    requires
        m.wf(),
        !m.initialized,
    ensures
        separated(initialized_model(m)),
{
    let mi = initialized_model(m);
    let d = m.dir_size();
    let n = m.levels.len() as int;
    lemma_wf_basics_pub(m);
    assert(d > 0);
    lemma_arrays_start(n, d);
    assert forall|i: int, p: int| 0 <= i < n && #[trigger] owned(mi.levels[i], mi.dir_size(), p) implies 16 <= p by {
        lemma_owned_in_bands(m, i, p);
        if i + 1 < n {
            lemma_bands_apart(m.levels, d, i, i + 1, p);
        } else if i > 0 {
            lemma_prefix_nonneg_mono(m.levels, 0, i);
            assert(0 <= i * d) by (nonlinear_arith)
                requires 0 <= i, d > 0;
        } else {
            lemma_prefix_nonneg_mono(m.levels, 0, n);
            assert(0 <= n * d) by (nonlinear_arith)
                requires 0 <= n, d > 0;
        }
    }
    assert forall|i: int, j: int, p: int|
        0 <= i < n && 0 <= j < n && i != j && #[trigger] owned(mi.levels[i], mi.dir_size(), p) implies !#[trigger] owned(
        mi.levels[j],
        mi.dir_size(),
        p,
    ) by {
        lemma_owned_in_bands(m, i, p);
        if owned(mi.levels[j], mi.dir_size(), p) {
            lemma_owned_in_bands(m, j, p);
            if i < j {
                lemma_bands_apart(m.levels, d, i, j, p);
            } else {
                lemma_bands_apart(m.levels, d, j, i, p);
            }
        }
    }
    assert forall|i: int| 0 <= i < n implies regions_apart(#[trigger] mi.levels[i], mi.dir_size()) by {
        let l = m.levels[i];
        lemma_prefix_nonneg_mono(m.levels, i, i + 1);
        lemma_prefix_nonneg_mono(m.levels, i + 1, n);
        lemma_prefix_nonneg_mono(m.levels, 0, i);
        assert(i * d + d <= n * d) by (nonlinear_arith)
            requires i < n, d > 0;
        assert(l.counts.len() > 2 ==> 4 * l.counts.len() <= counts_array_size(l));
    }
}

/// Level `l` with tile `k` pointing at `fo` bytes `fc` long.
pub open spec fn with_tile(l: LevelLayout, k: int, fo: u64, fc: u32) -> LevelLayout {
    LevelLayout { offsets: l.offsets.update(k, fo), counts: l.counts.update(k, fc), ..l }
}

#[verifier::spinoff_prover]
proof fn lemma_tile_dir_one(
    l: LevelLayout,
    k: int,
    fo: u64,
    fc: u32,
    next: u64,
    codec: Codec,
    color: ColorModel,
    channels: u16,
    ycbcr: (u16, u16),
)
    requires
        l.offsets.len() == 1,
        l.counts.len() == 1,
        k == 0,
    ensures
        spec_encode_directory(with_tile(l, k, fo, fc), next, codec, color, channels, ycbcr) == write_at(
            write_at(spec_encode_directory(l, next, codec, color, channels, ycbcr), crate::writer::slot_of(9), u64_bytes(fo)),
            crate::writer::slot_of(10) + 4 * k,
            u32_bytes(fc),
        ),
{
    reveal(spec_encode_directory);
    let l2 = with_tile(l, k, fo, fc);
    let es = dir_entries(l, codec, color, channels, ycbcr);
    let es2 = dir_entries(l2, codec, color, channels, ycbcr);
    let n = entry_count(codec, color);
    let head = u64_bytes(n as u64);
    let tail = u64_bytes(next);
    lemma_decoded_entries(l, codec, color, channels, ycbcr);
    lemma_slot_u64(n as u64);
    lemma_entries_bytes_len(es);
    lemma_slot_u64(fo);
    lemma_slot_u32(fc);
    let e9 = RawEntry { slot: write_at(es[9].slot, 0, u64_bytes(fo)), ..es[9] };
    let es_a = es.update(9, e9);
    assert(e9.slot =~= offsets_slot(l2.offsets, l2.offsets_base));
    lemma_entries_slot_write(es, 9, 0, u64_bytes(fo));
    assert(slots_sized(es_a));
    let e10 = RawEntry { slot: write_at(es_a[10].slot, 0, u32_bytes(fc)), ..es_a[10] };
    assert(e10.slot =~= counts_slot(l2.counts, l2.counts_base));
    lemma_entries_slot_write(es_a, 10, 0, u32_bytes(fc));
    assert(es_a.update(10, e10) =~= es2);
    lemma_write_mid(head, entries_bytes(es), tail, 192, u64_bytes(fo));
    lemma_write_mid(head, entries_bytes(es_a), tail, 212, u32_bytes(fc));
}

#[verifier::spinoff_prover]
proof fn lemma_tile_dir_two(
    l: LevelLayout,
    k: int,
    fo: u64,
    fc: u32,
    next: u64,
    codec: Codec,
    color: ColorModel,
    channels: u16,
    ycbcr: (u16, u16),
)
    requires
        l.offsets.len() == 2,
        l.counts.len() == 2,
        0 <= k < 2,
    ensures
        spec_encode_directory(with_tile(l, k, fo, fc), next, codec, color, channels, ycbcr) == write_at(
            spec_encode_directory(l, next, codec, color, channels, ycbcr),
            crate::writer::slot_of(10) + 4 * k,
            u32_bytes(fc),
        ),
{
    reveal(spec_encode_directory);
    let l2 = with_tile(l, k, fo, fc);
    let es = dir_entries(l, codec, color, channels, ycbcr);
    let es2 = dir_entries(l2, codec, color, channels, ycbcr);
    let n = entry_count(codec, color);
    let head = u64_bytes(n as u64);
    let tail = u64_bytes(next);
    lemma_decoded_entries(l, codec, color, channels, ycbcr);
    lemma_slot_u64(n as u64);
    lemma_entries_bytes_len(es);
    lemma_slot_u32(fc);
    let e10 = RawEntry { slot: write_at(es[10].slot, 4 * k, u32_bytes(fc)), ..es[10] };
    assert(es[10].slot == u32_bytes(l.counts[0]) + u32_bytes(l.counts[1]));
    lemma_slot_u32_pair(l.counts[0], l.counts[1]);
    if k == 0 {
        assert(l2.counts[0] == fc && l2.counts[1] == l.counts[1]);
        assert(e10.slot =~= u32_bytes(fc) + u32_bytes(l.counts[1]));
    } else {
        assert(l2.counts[1] == fc && l2.counts[0] == l.counts[0]);
        assert(e10.slot =~= u32_bytes(l.counts[0]) + u32_bytes(fc));
    }
    assert(e10.slot == counts_slot(l2.counts, l2.counts_base));
    lemma_entries_slot_write(es, 10, 4 * k, u32_bytes(fc));
    assert(es.update(10, e10) =~= es2);
    lemma_write_mid(head, entries_bytes(es), tail, 212 + 4 * k, u32_bytes(fc));
}

proof fn lemma_tile_dir_many(
    l: LevelLayout,
    k: int,
    fo: u64,
    fc: u32,
    next: u64,
    codec: Codec,
    color: ColorModel,
    channels: u16,
    ycbcr: (u16, u16),
)
    requires
        l.offsets.len() > 2,
        l.counts.len() == l.offsets.len(),
        0 <= k < l.offsets.len(),
    ensures
        spec_encode_directory(with_tile(l, k, fo, fc), next, codec, color, channels, ycbcr) == spec_encode_directory(
            l,
            next,
            codec,
            color,
            channels,
            ycbcr,
        ),
{
    reveal(spec_encode_directory);
    let l2 = with_tile(l, k, fo, fc);
    assert(dir_entries(l2, codec, color, channels, ycbcr) =~= dir_entries(l, codec, color, channels, ycbcr));
}

/// `file` after the writes of a tile: the payload appended, then the
/// offset and the byte count patched.
pub open spec fn tile_file(file: Seq<u8>, m: WriterModel, level: int, coord: (u64, u64), bytes: Seq<u8>) -> Seq<u8> {
    tile_file_at(file, m, level, coord, bytes, m.file_len)
}

/// `file` with `bytes` appended and tile `coord` of `level` patched to
/// record them at offset `fo`.
pub open spec fn tile_file_at(file: Seq<u8>, m: WriterModel, level: int, coord: (u64, u64), bytes: Seq<u8>, fo: u64) -> Seq<u8> {
    let l = m.levels[level];
    let k = tile_index(l, coord);
    write_at(
        write_at(file + bytes, l.offsets_base + 8 * k, u64_bytes(fo)),
        l.counts_base + 4 * k,
        u32_bytes(bytes.len() as u32),
    )
}

/// Where the two patches of a tile write fall in its level.
#[verifier::spinoff_prover]
pub proof fn lemma_patch_places(m: WriterModel, level: int, coord: (u64, u64), len: int)
    requires
        m.wf(),
        tile_target_ok(m, level, coord, len),
    ensures
        ({
            let l = m.levels[level];
            let k = tile_index(l, coord);
            let p1 = l.offsets_base + 8 * k;
            let p2 = l.counts_base + 4 * k;
            &&& 0 <= k < l.offsets.len()
            &&& l.offsets.len() == l.counts.len()
            &&& p1 + 8 <= m.file_len
            &&& p2 + 4 <= m.file_len
            &&& forall|p: int| p1 <= p < p1 + 8 ==> #[trigger] owned(l, m.dir_size(), p)
            &&& forall|p: int| p2 <= p < p2 + 4 ==> #[trigger] owned(l, m.dir_size(), p)
            &&& l.offsets.len() == 1 ==> p1 == l.dir_offset + slot_of(9) && p2 == l.dir_offset + slot_of(10)
            &&& l.offsets.len() == 2 ==> l.offsets_base <= p1 && p1 + 8 <= l.offsets_base + 8 * l.offsets.len()
                && p2 == l.dir_offset + slot_of(10) + 4 * k
            &&& l.offsets.len() > 2 ==> l.offsets_base <= p1 && p1 + 8 <= l.offsets_base + 8 * l.offsets.len()
                && l.counts_base <= p2 && p2 + 4 <= l.counts_base + 4 * l.counts.len()
        }),
{
    lemma_wf_level_pub(m, level);
    lemma_wf_basics_pub(m);
    let l = m.levels[level];
    let (c, r) = coord;
    assert(r * l.tiles_across + c < l.tiles_across * l.tiles_down) by (nonlinear_arith)
        requires r < l.tiles_down, c < l.tiles_across;
    assert(m.dir_size() >= 236);
}

/// Two intervals that belong to different levels do not overlap.
#[verifier::spinoff_prover]
pub proof fn lemma_intervals_apart(m: WriterModel, i: int, j: int, x: int, y: int, o: int, n: int)
    requires
        separated(m),
        0 <= i < m.levels.len(),
        0 <= j < m.levels.len(),
        i != j,
        x < y,
        0 < n,
        forall|p: int| x <= p < y ==> #[trigger] owned(m.levels[i], m.dir_size(), p),
        forall|p: int| o <= p < o + n ==> #[trigger] owned(m.levels[j], m.dir_size(), p),
    ensures
        y <= o || o + n <= x,
{
    if !(y <= o || o + n <= x) {
        let p = if x < o {
            o
        } else {
            x
        };
        assert(owned(m.levels[i], m.dir_size(), p));
        assert(owned(m.levels[j], m.dir_size(), p));
    }
}

/// The writes of a tile, applied to a file that holds what the writer has
/// written, give `tile_file`.
#[verifier::spinoff_prover]
pub proof fn lemma_tile_ops_file(file: Seq<u8>, m: WriterModel, level: int, coord: (u64, u64), bytes: Seq<u8>)
    requires
        m.wf(),
        separated(m),
        file.len() == m.file_len,
        tile_target_ok(m, level, coord, bytes.len() as int),
    ensures
        apply_ops(file, tile_ops(m, level, coord, bytes)) == tile_file(file, m, level, coord, bytes),
{
    lemma_patch_places(m, level, coord, bytes.len() as int);
    lemma_wf_level_pub(m, level);
    let l = m.levels[level];
    let k = tile_index(l, coord);
    let p1 = l.offsets_base + 8 * k;
    let p2 = l.counts_base + 4 * k;
    let ops = tile_ops(m, level, coord, bytes);
    reveal_with_fuel(apply_ops, 4);
    assert(ops.drop_last().drop_last() =~= seq![ops[0]]);
    assert(ops.drop_last() =~= seq![ops[0], ops[1]]);
    assert(seq![ops[0]].drop_last() =~= Seq::<OpModel>::empty());
    lemma_write_append(file, bytes);
    // The offset and the byte count lie apart, so the order of their writes
    // does not matter.
    assert(regions_apart(l, m.dir_size()));
    assert(p1 + 8 <= p2 || p2 + 4 <= p1);
    let f1 = file + bytes;
    lemma_slot_u64(m.file_len);
    lemma_slot_u32(bytes.len() as u32);
    assert(write_at(write_at(f1, p2, u32_bytes(bytes.len() as u32)), p1, u64_bytes(m.file_len)) =~= write_at(
        write_at(f1, p1, u64_bytes(m.file_len)),
        p2,
        u32_bytes(bytes.len() as u32),
    ));
}

/// The facts a tile write is proved under.
pub open spec fn tile_write_ok(file: Seq<u8>, m: WriterModel, level: int, coord: (u64, u64), bytes: Seq<u8>) -> bool {
    &&& m.wf()
    &&& realizes(file, m)
    &&& separated(m)
    &&& tile_target_ok(m, level, coord, bytes.len() as int)
    &&& m.file_len + bytes.len() <= u64::MAX
}

/// The bytes of the directory of a level other than the one written stay.
#[verifier::spinoff_prover]
pub proof fn lemma_tile_keeps_other_dir(
    file: Seq<u8>,
    m: WriterModel,
    level: int,
    coord: (u64, u64),
    bytes: Seq<u8>,
    i: int,
    fo: u64,
)
    requires
        tile_write_ok(file, m, level, coord, bytes),
        0 <= i < m.levels.len(),
        i != level,
    ensures
        tile_file_at(file, m, level, coord, bytes, fo).subrange(
            m.levels[i].dir_offset as int,
            m.levels[i].dir_offset + m.dir_size(),
        ) == file.subrange(m.levels[i].dir_offset as int, m.levels[i].dir_offset + m.dir_size()),
{
    let l = m.levels[level];
    let li = m.levels[i];
    let k = tile_index(l, coord);
    let d = m.dir_size();
    let p1 = l.offsets_base + 8 * k;
    let p2 = l.counts_base + 4 * k;
    let x = li.dir_offset as int;
    let y = x + d;
    lemma_patch_places(m, level, coord, bytes.len() as int);
    lemma_wf_level_pub(m, i);
    lemma_wf_basics_pub(m);
    assert(d >= 236);
    assert forall|p: int| x <= p < y implies #[trigger] owned(li, d, p) by {}
    lemma_intervals_apart(m, i, level, x, y, p1, 8);
    lemma_intervals_apart(m, i, level, x, y, p2, 4);
    let f1 = file + bytes;
    let f2 = write_at(f1, p1, u64_bytes(fo));
    lemma_slot_u64(fo);
    lemma_slot_u32(bytes.len() as u32);
    assert(f1.subrange(x, y) =~= file.subrange(x, y));
    lemma_write_inside(f1, p1, u64_bytes(fo), x, y);
    lemma_write_inside(f2, p2, u32_bytes(bytes.len() as u32), x, y);
}

/// The directory of the level written takes the patches that fall in it.
#[verifier::spinoff_prover]
pub proof fn lemma_tile_own_dir(file: Seq<u8>, m: WriterModel, level: int, coord: (u64, u64), bytes: Seq<u8>, fo: u64)
    requires
        tile_write_ok(file, m, level, coord, bytes),
    ensures
        ({
            let l = m.levels[level];
            let t = tile_model_at(m, level, coord, bytes.len() as int, fo);
            tile_file_at(file, m, level, coord, bytes, fo).subrange(l.dir_offset as int, l.dir_offset + m.dir_size())
                == spec_encode_directory(
                t.levels[level],
                next_dir(m.levels, level),
                m.codec,
                m.color_model,
                m.channels,
                m.ycbcr_subsampling,
            )
        }),
{
    let l = m.levels[level];
    let k = tile_index(l, coord);
    let d = m.dir_size();
    let p1 = l.offsets_base + 8 * k;
    let p2 = l.counts_base + 4 * k;
    let x = l.dir_offset as int;
    let y = x + d;
    let fc = bytes.len() as u32;
    let next = next_dir(m.levels, level);
    lemma_patch_places(m, level, coord, bytes.len() as int);
    lemma_wf_level_pub(m, level);
    lemma_wf_basics_pub(m);
    assert(d >= 236);
    let f1 = file + bytes;
    let f2 = write_at(f1, p1, u64_bytes(fo));
    lemma_slot_u64(fo);
    lemma_slot_u32(fc);
    assert(f1.subrange(x, y) =~= file.subrange(x, y));
    let enc = spec_encode_directory(l, next, m.codec, m.color_model, m.channels, m.ycbcr_subsampling);
    assert(file.subrange(x, y) == enc);
    let t = tile_model_at(m, level, coord, bytes.len() as int, fo);
    assert(t.levels[level] == with_tile(l, k, fo, fc));
    let n = l.offsets.len();
    assert(regions_apart(l, d));
    lemma_write_inside(f1, p1, u64_bytes(fo), x, y);
    lemma_write_inside(f2, p2, u32_bytes(fc), x, y);
    if n == 1 {
        lemma_tile_dir_one(l, k, fo, fc, next, m.codec, m.color_model, m.channels, m.ycbcr_subsampling);
    } else if n == 2 {
        lemma_tile_dir_two(l, k, fo, fc, next, m.codec, m.color_model, m.channels, m.ycbcr_subsampling);
    } else {
        lemma_tile_dir_many(l, k, fo, fc, next, m.codec, m.color_model, m.channels, m.ycbcr_subsampling);
    }
}

/// A range owned by a level other than the one written keeps its bytes.
#[verifier::spinoff_prover]
pub proof fn lemma_tile_keeps_range(
    file: Seq<u8>,
    m: WriterModel,
    level: int,
    coord: (u64, u64),
    bytes: Seq<u8>,
    i: int,
    x: int,
    y: int,
    fo: u64,
)
    requires
        tile_write_ok(file, m, level, coord, bytes),
        0 <= i < m.levels.len(),
        i != level,
        0 <= x < y <= file.len(),
        forall|p: int| x <= p < y ==> #[trigger] owned(m.levels[i], m.dir_size(), p),
    ensures
        tile_file_at(file, m, level, coord, bytes, fo).subrange(x, y) == file.subrange(x, y),
{
    let l = m.levels[level];
    let k = tile_index(l, coord);
    let p1 = l.offsets_base + 8 * k;
    let p2 = l.counts_base + 4 * k;
    lemma_patch_places(m, level, coord, bytes.len() as int);
    lemma_intervals_apart(m, i, level, x, y, p1, 8);
    lemma_intervals_apart(m, i, level, x, y, p2, 4);
    let f1 = file + bytes;
    let f2 = write_at(f1, p1, u64_bytes(fo));
    lemma_slot_u64(fo);
    lemma_slot_u32(bytes.len() as u32);
    assert(f1.subrange(x, y) =~= file.subrange(x, y));
    lemma_write_inside(f1, p1, u64_bytes(fo), x, y);
    lemma_write_inside(f2, p2, u32_bytes(bytes.len() as u32), x, y);
}

/// The level written keeps its arrays whole, with the tile recorded.
#[verifier::spinoff_prover]
pub proof fn lemma_tile_own_level(
    file: Seq<u8>,
    m: WriterModel,
    level: int,
    coord: (u64, u64),
    bytes: Seq<u8>,
    fo: u64,
)
    requires
        tile_write_ok(file, m, level, coord, bytes),
        fo <= m.file_len,
    ensures
        level_in_file(
            tile_model_at(m, level, coord, bytes.len() as int, fo).levels[level],
            tile_file_at(file, m, level, coord, bytes, fo),
        ),
{
    let l = m.levels[level];
    let k = tile_index(l, coord);
    let d = m.dir_size();
    let p1 = l.offsets_base + 8 * k;
    let p2 = l.counts_base + 4 * k;
    let fc = bytes.len() as u32;
    let t = tile_model_at(m, level, coord, bytes.len() as int, fo);
    let l2 = t.levels[level];
    let f1 = file + bytes;
    let f2 = write_at(f1, p1, u64_bytes(fo));
    let f3 = tile_file_at(file, m, level, coord, bytes, fo);
    lemma_patch_places(m, level, coord, bytes.len() as int);
    lemma_wf_level_pub(m, level);
    lemma_slot_u64(fo);
    lemma_slot_u32(fc);
    assert(level_in_file(l, file));
    assert(regions_apart(l, d));
    let n = l.offsets.len();
    lemma_write_inside(f1, p1, u64_bytes(fo), 0, f1.len() as int);
    lemma_write_inside(f2, p2, u32_bytes(fc), 0, f1.len() as int);
    assert(f3.len() == file.len() + bytes.len());
    if n > 1 {
        let ob = l.offsets_base as int;
        let oe = ob + 8 * n;
        assert(f1.subrange(ob, oe) =~= file.subrange(ob, oe));
        lemma_write_inside(f1, p1, u64_bytes(fo), ob, oe);
        lemma_write_inside(f2, p2, u32_bytes(fc), ob, oe);
        lemma_u64s_update(l.offsets, k, fo);
        assert(l2.offsets == l.offsets.update(k, fo));
    }
    if n > 2 {
        let cb = l.counts_base as int;
        let ce = cb + 4 * n;
        assert(f1.subrange(cb, ce) =~= file.subrange(cb, ce));
        lemma_write_inside(f1, p1, u64_bytes(fo), cb, ce);
        lemma_write_inside(f2, p2, u32_bytes(fc), cb, ce);
        lemma_u32s_update(l.counts, k, fc);
        assert(l2.counts == l.counts.update(k, fc));
    }
    assert forall|j: int| 0 <= j < l2.offsets.len() implies #[trigger] l2.offsets[j] + l2.counts[j] <= f3.len() by {
        if j != k {
            assert(l.offsets[j] + l.counts[j] <= file.len());
        }
    }
}

#[verifier::spinoff_prover]
proof fn lemma_tile_separated(m: WriterModel, level: int, coord: (u64, u64), len: int, fo: u64)
    requires
        m.wf(),
        separated(m),
        tile_target_ok(m, level, coord, len),
    ensures
        separated(tile_model_at(m, level, coord, len, fo)),
{
    let t = tile_model_at(m, level, coord, len, fo);
    let d = m.dir_size();
    let n = m.levels.len() as int;
    lemma_patch_places(m, level, coord, len);
    assert forall|i: int| 0 <= i < n implies #[trigger] t.levels[i] == LevelLayout {
        offsets: t.levels[i].offsets,
        counts: t.levels[i].counts,
        ..m.levels[i]
    } && t.levels[i].offsets.len() == m.levels[i].offsets.len() && t.levels[i].counts.len()
        == m.levels[i].counts.len() by {}
    assert forall|i: int, p: int| 0 <= i < n implies #[trigger] owned(t.levels[i], d, p) == owned(m.levels[i], d, p) by {
        assert(t.levels[i].offsets.len() == m.levels[i].offsets.len());
    }
    assert forall|i: int| 0 <= i < n implies regions_apart(#[trigger] t.levels[i], t.dir_size()) by {
        assert(regions_apart(m.levels[i], d));
    }
}

#[verifier::spinoff_prover]
proof fn lemma_tile_levels(file: Seq<u8>, m: WriterModel, level: int, coord: (u64, u64), bytes: Seq<u8>, fo: u64)
    requires
        tile_write_ok(file, m, level, coord, bytes),
        fo <= m.file_len,
    ensures
        forall|i: int|
            0 <= i < m.levels.len() ==> level_in_file(
                #[trigger] tile_model_at(m, level, coord, bytes.len() as int, fo).levels[i],
                tile_file_at(file, m, level, coord, bytes, fo),
            ),
{
    let t = tile_model_at(m, level, coord, bytes.len() as int, fo);
    let f3 = tile_file_at(file, m, level, coord, bytes, fo);
    let d = m.dir_size();
    let n = m.levels.len() as int;
    lemma_patch_places(m, level, coord, bytes.len() as int);
    lemma_wf_basics_pub(m);
    assert forall|i: int| 0 <= i < n implies level_in_file(#[trigger] t.levels[i], f3) by {
        if i == level {
            lemma_tile_own_level(file, m, level, coord, bytes, fo);
        } else {
            let li = m.levels[i];
            assert(t.levels[i] == li);
            assert(level_in_file(li, file));
            lemma_wf_level_pub(m, i);
            if li.offsets.len() > 1 {
                let x = li.offsets_base as int;
                let y = x + 8 * li.offsets.len();
                assert forall|p: int| x <= p < y implies #[trigger] owned(li, d, p) by {}
                lemma_tile_keeps_range(file, m, level, coord, bytes, i, x, y, fo);
            }
            if li.counts.len() > 2 {
                let x = li.counts_base as int;
                let y = x + 4 * li.counts.len();
                assert forall|p: int| x <= p < y implies #[trigger] owned(li, d, p) by {}
                lemma_tile_keeps_range(file, m, level, coord, bytes, i, x, y, fo);
            }
            assert forall|j: int| 0 <= j < li.offsets.len() implies #[trigger] li.offsets[j] + li.counts[j] <= f3.len() by {
                assert(li.offsets[j] + li.counts[j] <= file.len());
            }
        }
    }
}

#[verifier::spinoff_prover]
proof fn lemma_tile_dirs(file: Seq<u8>, m: WriterModel, level: int, coord: (u64, u64), bytes: Seq<u8>, fo: u64)
    requires
        tile_write_ok(file, m, level, coord, bytes),
    ensures
        ({
            let t = tile_model_at(m, level, coord, bytes.len() as int, fo);
            forall|i: int|
                0 <= i < m.levels.len() ==> tile_file_at(file, m, level, coord, bytes, fo).subrange(
                    (#[trigger] t.levels[i]).dir_offset as int,
                    t.levels[i].dir_offset + t.dir_size(),
                ) == spec_encode_directory(
                    t.levels[i],
                    next_dir(t.levels, i),
                    t.codec,
                    t.color_model,
                    t.channels,
                    t.ycbcr_subsampling,
                )
        }),
{
    let t = tile_model_at(m, level, coord, bytes.len() as int, fo);
    let f3 = tile_file_at(file, m, level, coord, bytes, fo);
    let n = m.levels.len() as int;
    assert forall|i: int| 0 <= i < n implies next_dir(t.levels, i) == next_dir(m.levels, i) by {
        if i + 1 < n {
            assert(t.levels[i + 1].dir_offset == m.levels[i + 1].dir_offset);
        }
    }
    assert forall|i: int| 0 <= i < n implies f3.subrange(
        (#[trigger] t.levels[i]).dir_offset as int,
        t.levels[i].dir_offset + t.dir_size(),
    ) == spec_encode_directory(t.levels[i], next_dir(t.levels, i), t.codec, t.color_model, t.channels, t.ycbcr_subsampling) by {
        if i == level {
            lemma_tile_own_dir(file, m, level, coord, bytes, fo);
        } else {
            lemma_tile_keeps_other_dir(file, m, level, coord, bytes, i, fo);
            assert(t.levels[i] == m.levels[i]);
        }
    }
}

/// A tile write keeps a file whole: applied to a file that holds what the
/// writer has written, the writes of `put_tile_at_level` leave a file that
/// holds what the writer holds afterwards, with the bytes of every level
/// still apart.
#[verifier::spinoff_prover]
pub proof fn lemma_tile_realizes(file: Seq<u8>, m: WriterModel, level: int, coord: (u64, u64), bytes: Seq<u8>)
    requires
        m.wf(),
        realizes(file, m),
        separated(m),
        tile_target_ok(m, level, coord, bytes.len() as int),
        m.file_len + bytes.len() <= u64::MAX,
    ensures
        realizes(apply_ops(file, tile_ops(m, level, coord, bytes)), tile_model(m, level, coord, bytes.len() as int)),
        separated(tile_model(m, level, coord, bytes.len() as int)),
{
    lemma_tile_ops_file(file, m, level, coord, bytes);
    lemma_tile_realizes_at(file, m, level, coord, bytes, m.file_len);
}

/// Appending `bytes` and patching tile `coord` to record them at any offset
/// `fo` within the file as it was keeps the file whole.
#[verifier::spinoff_prover]
proof fn lemma_tile_realizes_at(file: Seq<u8>, m: WriterModel, level: int, coord: (u64, u64), bytes: Seq<u8>, fo: u64)
    requires
        tile_write_ok(file, m, level, coord, bytes),
        fo <= m.file_len,
    ensures
        realizes(tile_file_at(file, m, level, coord, bytes, fo), tile_model_at(m, level, coord, bytes.len() as int, fo)),
        separated(tile_model_at(m, level, coord, bytes.len() as int, fo)),
{
    let t = tile_model_at(m, level, coord, bytes.len() as int, fo);
    let f3 = tile_file_at(file, m, level, coord, bytes, fo);
    let l = m.levels[level];
    let k = tile_index(l, coord);
    let d = m.dir_size();
    let n = m.levels.len() as int;
    lemma_patch_places(m, level, coord, bytes.len() as int);
    lemma_wf_basics_pub(m);
    let f1 = file + bytes;
    let f2 = write_at(f1, l.offsets_base + 8 * k, u64_bytes(fo));
    lemma_slot_u64(fo);
    lemma_slot_u32(bytes.len() as u32);
    lemma_write_inside(f1, l.offsets_base + 8 * k, u64_bytes(fo), 0, 16);
    lemma_write_inside(f2, l.counts_base + 4 * k, u32_bytes(bytes.len() as u32), 0, 16);
    lemma_write_inside(f1, l.offsets_base + 8 * k, u64_bytes(fo), 0, f1.len() as int);
    lemma_write_inside(f2, l.counts_base + 4 * k, u32_bytes(bytes.len() as u32), 0, f1.len() as int);
    assert(owned(l, d, l.offsets_base + 8 * k));
    assert(owned(l, d, l.counts_base + 4 * k));
    assert(f1.subrange(0, 16) =~= file.subrange(0, 16));
    assert(t.levels[0].dir_offset == m.levels[0].dir_offset);
    lemma_tile_dirs(file, m, level, coord, bytes, fo);
    lemma_tile_levels(file, m, level, coord, bytes, fo);
    lemma_tile_separated(m, level, coord, bytes.len() as int, fo);
    assert forall|i: int, j: int| 0 <= i < j < n implies (#[trigger] t.levels[i]).dir_offset != (
    #[trigger] t.levels[j]).dir_offset by {
        assert(m.levels[i].dir_offset != m.levels[j].dir_offset);
    }
}

/// The bytes of an array of offsets hold each offset at its place.
proof fn lemma_offset_bytes_array(file: Seq<u8>, l: LevelLayout, k: int)
    requires
        0 <= k < l.offsets.len(),
        l.offsets_base + 8 * l.offsets.len() <= file.len(),
        file.subrange(l.offsets_base as int, l.offsets_base + 8 * l.offsets.len()) == u64s_bytes(l.offsets),
    ensures
        file.subrange(l.offsets_base + 8 * k, l.offsets_base + 8 * k + 8) == u64_bytes(l.offsets[k]),
{
    let o = l.offsets[k];
    let ob = l.offsets_base as int;
    let n = l.offsets.len() as int;
    let u = u64s_bytes(l.offsets);
    lemma_slot_u64(o);
    lemma_u64s_update(l.offsets, k, o);
    assert(l.offsets.update(k, o) =~= l.offsets);
    assert(write_at(u, 8 * k, u64_bytes(o)).subrange(8 * k, 8 * k + 8) =~= u64_bytes(o));
    assert(file.subrange(ob + 8 * k, ob + 8 * k + 8) =~= u.subrange(8 * k, 8 * k + 8));
}

/// The directory of a level of one tile holds the tile's offset in the
/// value slot of its offsets entry.
proof fn lemma_offset_bytes_inline(
    l: LevelLayout,
    next: u64,
    codec: Codec,
    color: ColorModel,
    channels: u16,
    ycbcr: (u16, u16),
)
    requires
        l.offsets.len() == 1,
        l.counts.len() == 1,
    ensures
        spec_encode_directory(l, next, codec, color, channels, ycbcr).subrange(slot_of(9), slot_of(9) + 8)
            == u64_bytes(l.offsets[0]),
{
    let o = l.offsets[0];
    let c = l.counts[0];
    let e = spec_encode_directory(l, next, codec, color, channels, ycbcr);
    lemma_tile_dir_one(l, 0, o, c, next, codec, color, channels, ycbcr);
    assert(with_tile(l, 0, o, c) == l) by {
        assert(l.offsets.update(0, o) =~= l.offsets);
        assert(l.counts.update(0, c) =~= l.counts);
    }
    lemma_directory_len(l, next, codec, color, channels, ycbcr);
    lemma_slot_u64(o);
    lemma_slot_u32(c);
    assert(dir_size(codec, color) >= 236);
    let e1 = write_at(e, slot_of(9), u64_bytes(o));
    assert(e1.subrange(slot_of(9), slot_of(9) + 8) =~= u64_bytes(o));
    lemma_write_inside(e1, slot_of(10), u32_bytes(c), slot_of(9), slot_of(9) + 8);
}

/// A written file already holds, where a tile's offset is recorded, the
/// bytes of that offset.
#[verifier::spinoff_prover]
#[verifier::rlimit(40)]
proof fn lemma_offset_bytes_in_file(file: Seq<u8>, m: WriterModel, level: int, coord: (u64, u64), len: int)
    requires
        m.wf(),
        realizes(file, m),
        tile_target_ok(m, level, coord, len),
    ensures
        ({
            let l = m.levels[level];
            let k = tile_index(l, coord);
            file.subrange(l.offsets_base + 8 * k, l.offsets_base + 8 * k + 8) == u64_bytes(l.offsets[k])
        }),
{
    let l = m.levels[level];
    let k = tile_index(l, coord);
    let p1 = l.offsets_base + 8 * k;
    lemma_patch_places(m, level, coord, len);
    lemma_wf_level_pub(m, level);
    assert(level_in_file(l, file));
    if l.offsets.len() > 1 {
        lemma_offset_bytes_array(file, l, k);
    } else {
        let x = l.dir_offset as int;
        let d = m.dir_size();
        let next = next_dir(m.levels, level);
        assert(file.subrange(x, x + d) == spec_encode_directory(
            l,
            next,
            m.codec,
            m.color_model,
            m.channels,
            m.ycbcr_subsampling,
        ));
        lemma_offset_bytes_inline(l, next, m.codec, m.color_model, m.channels, m.ycbcr_subsampling);
        lemma_directory_len(l, next, m.codec, m.color_model, m.channels, m.ycbcr_subsampling);
        assert(file.subrange(p1, p1 + 8) =~= file.subrange(x, x + d).subrange(slot_of(9), slot_of(9) + 8));
    }
}

/// Between the byte count and the offset of a tile write: with the payload
/// appended and the byte count patched, the file holds the tile at its old
/// offset with its new length, a range that still ends inside the grown
/// file.
#[verifier::spinoff_prover]
#[verifier::rlimit(40)]
pub proof fn lemma_tile_mid_realizes(file: Seq<u8>, m: WriterModel, level: int, coord: (u64, u64), bytes: Seq<u8>)
    requires
        tile_write_ok(file, m, level, coord, bytes),
    ensures
        ({
            let old_offset = m.levels[level].offsets[tile_index(m.levels[level], coord)];
            &&& realizes(
                apply_ops(file, tile_ops(m, level, coord, bytes).take(2)),
                tile_model_at(m, level, coord, bytes.len() as int, old_offset),
            )
            &&& separated(tile_model_at(m, level, coord, bytes.len() as int, old_offset))
        }),
{
    let l = m.levels[level];
    let k = tile_index(l, coord);
    let o = l.offsets[k];
    let p1 = l.offsets_base + 8 * k;
    let p2 = l.counts_base + 4 * k;
    let ops = tile_ops(m, level, coord, bytes);
    lemma_patch_places(m, level, coord, bytes.len() as int);
    assert(level_in_file(l, file));
    assert(o + l.counts[k] <= file.len());
    lemma_tile_realizes_at(file, m, level, coord, bytes, o);
    lemma_offset_bytes_in_file(file, m, level, coord, bytes.len() as int);
    lemma_slot_u64(o);
    let f1 = file + bytes;
    assert(write_at(f1, p1, u64_bytes(o)) =~= f1) by {
        assert forall|i: int| p1 <= i < p1 + 8 implies f1[i] == u64_bytes(o)[i - p1] by {
            assert(file.subrange(p1, p1 + 8)[i - p1] == file[i]);
        }
    }
    reveal_with_fuel(apply_ops, 3);
    assert(ops.take(2) =~= seq![ops[0], ops[1]]);
    assert(seq![ops[0], ops[1]].drop_last() =~= seq![ops[0]]);
    assert(seq![ops[0]].drop_last() =~= Seq::<OpModel>::empty());
    lemma_write_append(file, bytes);
}

/// Initializing a writer leaves the bytes of every level apart.
pub proof fn lemma_init_separated_pub(m: WriterModel)
    requires
        m.wf(),
        !m.initialized,
    ensures
        separated(initialized_model(m)),
{
    lemma_init_separated(m);
}
} // verus!
