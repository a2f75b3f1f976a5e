//! Resizing a level of a written file keeps the file whole at every write:
//! the resized level is appended past the end of the file, which leaves the
//! file as it was, and the one pointer that leads to the level is switched
//! to it last.
use vstd::prelude::*;

use crate::file_image::{apply_ops, lemma_slot_u64, lemma_u32s_read, lemma_u64s_read, lemma_write_append, lemma_write_inside, write_at};
use crate::format::{lemma_div_ceil, u64_bytes};
use crate::level_edits::{lemma_append_keeps_levels, lemma_relink_dir};
use crate::readback::{header_for, level_in_file, realizes};
use crate::reader::header_magic;
use crate::writeback::{lemma_intervals_apart, owned, regions_apart, separated};
use crate::writer::{
    align8, arrays_tail, fresh_level, lemma_directory_len, lemma_wf_basics_pub, lemma_wf_level_pub, level_spec_valid,
    link_to, moved_level, next_dir, resize_growth, resize_ops, resize_payload, resized_level, resized_model,
    spec_encode_directory, u32s_bytes, u64s_bytes, zeros, LevelLayout, OpModel, WriterModel,
};

verus! {

/// What resizing a level of a written file is proved under: the writer
/// accepts the new dimensions.
pub open spec fn resize_ok(file: Seq<u8>, m: WriterModel, level: int, dims: (u64, u64)) -> bool {
    let l = m.levels[level];
    let tile = (l.tile_width, l.tile_height);
    let len = fresh_level(dims, tile).tile_count();
    &&& m.wf()
    &&& realizes(file, m)
    &&& separated(m)
    &&& 0 <= level < m.levels.len()
    &&& level_spec_valid(dims, tile)
    &&& len <= usize::MAX
    &&& align8(m.file_len as int) + resize_growth(len) + m.dir_size() <= u64::MAX
    &&& dims.0 <= u32::MAX
    &&& dims.1 <= u32::MAX
}

/// The file after the writes of a resize: the resized level appended, then
/// the pointer that leads to it switched.
pub open spec fn resized_file(file: Seq<u8>, m: WriterModel, level: int, dims: (u64, u64)) -> Seq<u8> {
    write_at(
        file + resize_payload(m, level, dims),
        link_to(m, level) as int,
        u64_bytes(moved_level(m.levels[level], dims, m.file_len as int).dir_offset),
    )
}

/// The resized level is valid, with as many offsets and counts as tiles.
#[verifier::spinoff_prover]
proof fn lemma_resized_facts(l: LevelLayout, dims: (u64, u64), file_len: int)
    requires
        level_spec_valid(dims, (l.tile_width, l.tile_height)),
    ensures
        resized_level(l, dims, file_len).wf(),
        resized_level(l, dims, file_len).tile_count() == fresh_level(dims, (l.tile_width, l.tile_height)).tile_count(),
        resized_level(l, dims, file_len).tile_count() >= 1,
        resized_level(l, dims, file_len).offsets.len() == resized_level(l, dims, file_len).tile_count(),
        resized_level(l, dims, file_len).counts.len() == resized_level(l, dims, file_len).tile_count(),
{
    let nl = resized_level(l, dims, file_len);
    lemma_div_ceil(dims.0 as int, l.tile_width as int);
    lemma_div_ceil(dims.1 as int, l.tile_height as int);
    let a = nl.tiles_across as int;
    let b = nl.tiles_down as int;
    assert(a * b >= 1) by (nonlinear_arith)
        requires
            a * l.tile_width >= dims.0,
            dims.0 > 0,
            l.tile_width > 0,
            b * l.tile_height >= dims.1,
            dims.1 > 0,
            l.tile_height > 0,
            a >= 0,
            b >= 0,
    ;
}

/// Every offset and byte count of a resized level is one of the level's
/// own, or zero.
#[verifier::spinoff_prover]
proof fn lemma_resized_values(l: LevelLayout, dims: (u64, u64), file_len: int, bound: int)
    requires
        l.wf(),
        level_spec_valid(dims, (l.tile_width, l.tile_height)),
        forall|k: int| 0 <= k < l.offsets.len() ==> #[trigger] l.offsets[k] + l.counts[k] <= bound,
        0 <= bound,
    ensures
        forall|k: int|
            0 <= k < resized_level(l, dims, file_len).offsets.len() ==> #[trigger] resized_level(
                l,
                dims,
                file_len,
            ).offsets[k] + resized_level(l, dims, file_len).counts[k] <= bound,
{
    let nl = resized_level(l, dims, file_len);
    lemma_resized_facts(l, dims, file_len);
    let a = nl.tiles_across as int;
    let oa = l.tiles_across as int;
    let od = l.tiles_down as int;
    assert forall|k: int| 0 <= k < nl.offsets.len() implies #[trigger] nl.offsets[k] + nl.counts[k] <= bound by {
        assert(a > 0) by (nonlinear_arith)
            requires
                a * (nl.tiles_down as int) >= 1,
                a >= 0,
                nl.tiles_down >= 0,
        ;
        let q = k / a;
        let r = k % a;
        if q < od && r < oa {
            assert(0 <= q * oa + r < oa * od) by (nonlinear_arith)
                requires
                    0 <= q < od,
                    0 <= r < oa,
            ;
            assert(nl.offsets[k] == l.offsets[q * oa + r]);
            assert(nl.counts[k] == l.counts[q * oa + r]);
        }
    }
}

/// Where the resized level and the payload lie.
#[verifier::spinoff_prover]
proof fn lemma_moved_place(m: WriterModel, level: int, dims: (u64, u64))
    requires
        m.wf(),
        0 <= level < m.levels.len(),
        level_spec_valid(dims, (m.levels[level].tile_width, m.levels[level].tile_height)),
        align8(m.file_len as int) + resize_growth(
            fresh_level(dims, (m.levels[level].tile_width, m.levels[level].tile_height)).tile_count(),
        ) + m.dir_size() <= u64::MAX,
    ensures
        ({
            let fl = m.file_len as int;
            let a = align8(fl);
            let nl = moved_level(m.levels[level], dims, fl);
            let len = nl.offsets.len() as int;
            &&& fl <= a < fl + 8
            &&& a % 8 == 0
            &&& nl.wf()
            &&& len >= 1
            &&& nl.counts.len() == len
            &&& len == fresh_level(dims, (m.levels[level].tile_width, m.levels[level].tile_height)).tile_count()
            &&& arrays_tail(nl).len() == resize_growth(len)
            &&& nl.dir_offset == a + resize_growth(len)
            &&& resize_payload(m, level, dims).len() == nl.dir_offset + m.dir_size() - fl
            &&& resized_model(m, level, dims).file_len == nl.dir_offset + m.dir_size()
            &&& nl.tile_width == m.levels[level].tile_width
            &&& nl.tile_height == m.levels[level].tile_height
        }),
{
    let l = m.levels[level];
    let fl = m.file_len as int;
    let nl = moved_level(l, dims, fl);
    let len = nl.offsets.len() as int;
    lemma_resized_facts(l, dims, fl);
    if len > 1 {
        lemma_u64s_read(nl.offsets, 0);
    }
    if len > 2 {
        lemma_u32s_read(nl.counts, 0);
    }
    lemma_directory_len(nl, next_dir(m.levels, level), m.codec, m.color_model, m.channels, m.ycbcr_subsampling);
}

/// Where the pointer that leads to level `level` lies.
#[verifier::spinoff_prover]
proof fn lemma_link_facts(m: WriterModel, level: int)
    requires
        m.wf(),
        separated(m),
        0 <= level < m.levels.len(),
    ensures
        level == 0 ==> link_to(m, level) == 8,
        level > 0 ==> link_to(m, level) + 8 == m.levels[level - 1].dir_offset + m.dir_size(),
        level > 0 ==> m.levels[level - 1].dir_offset <= link_to(m, level),
        level > 0 ==> forall|p: int|
            link_to(m, level) <= p < link_to(m, level) + 8 ==> #[trigger] owned(m.levels[level - 1], m.dir_size(), p),
        level > 0 ==> 16 <= link_to(m, level),
        link_to(m, level) + 8 <= m.file_len,
        16 <= m.file_len,
{
    lemma_wf_basics_pub(m);
    lemma_wf_level_pub(m, 0);
    if level > 0 {
        lemma_wf_level_pub(m, level - 1);
        assert(m.dir_size() >= 236);
    }
}

/// The writes of `set_dimensions` on a written file leave `resized_file`.
#[verifier::spinoff_prover]
pub proof fn lemma_resize_ops_file(file: Seq<u8>, m: WriterModel, level: int, dims: (u64, u64))
    requires
        resize_ok(file, m, level, dims),
    ensures
        apply_ops(file, resize_ops(m, level, dims)) == resized_file(file, m, level, dims),
        resized_file(file, m, level, dims).len() == resized_model(m, level, dims).file_len,
        (file + resize_payload(m, level, dims)).len() == resized_model(m, level, dims).file_len,
{
    let ops = resize_ops(m, level, dims);
    let nl = moved_level(m.levels[level], dims, m.file_len as int);
    lemma_moved_place(m, level, dims);
    lemma_link_facts(m, level);
    lemma_slot_u64(nl.dir_offset);
    reveal_with_fuel(apply_ops, 3);
    assert(ops.drop_last().drop_last() =~= Seq::<OpModel>::empty());
    assert(ops.drop_last() =~= seq![ops[0]]);
    lemma_write_append(file, ops[0].bytes);
    let f1 = file + ops[0].bytes;
    lemma_write_inside(f1, link_to(m, level) as int, u64_bytes(nl.dir_offset), 0, f1.len() as int);
}

/// A range of the file held by a level keeps its bytes, unless the pointer
/// lies in it.
#[verifier::spinoff_prover]
proof fn lemma_resize_keeps(file: Seq<u8>, m: WriterModel, level: int, dims: (u64, u64), j: int, x: int, y: int)
    requires
        resize_ok(file, m, level, dims),
        0 <= j < m.levels.len(),
        level == 0 || j != level - 1,
        0 <= x < y <= file.len(),
        forall|p: int| x <= p < y ==> #[trigger] owned(m.levels[j], m.dir_size(), p),
    ensures
        resized_file(file, m, level, dims).subrange(x, y) == file.subrange(x, y),
{
    let nl = moved_level(m.levels[level], dims, m.file_len as int);
    lemma_resize_ops_file(file, m, level, dims);
    lemma_link_facts(m, level);
    lemma_slot_u64(nl.dir_offset);
    let o = link_to(m, level) as int;
    let f1 = file + resize_payload(m, level, dims);
    if level == 0 {
        assert(owned(m.levels[j], m.dir_size(), x));
    } else {
        lemma_intervals_apart(m, j, level - 1, x, y, o, 8);
    }
    assert(f1.subrange(x, y) =~= file.subrange(x, y));
    lemma_write_inside(f1, o, u64_bytes(nl.dir_offset), x, y);
}

/// What the appended bytes hold: the new arrays from the next multiple of 8,
/// then the new directory.
#[verifier::spinoff_prover]
proof fn lemma_payload_parts(file: Seq<u8>, m: WriterModel, level: int, dims: (u64, u64))
    requires
        resize_ok(file, m, level, dims),
    ensures
        ({
            let fl = m.file_len as int;
            let a = align8(fl);
            let nl = moved_level(m.levels[level], dims, fl);
            let len = nl.offsets.len() as int;
            let f1 = file + resize_payload(m, level, dims);
            &&& f1.subrange(nl.dir_offset as int, nl.dir_offset + m.dir_size()) == spec_encode_directory(
                nl,
                next_dir(m.levels, level),
                m.codec,
                m.color_model,
                m.channels,
                m.ycbcr_subsampling,
            )
            &&& len > 1 ==> f1.subrange(a, a + 8 * len) == u64s_bytes(nl.offsets)
            &&& len > 2 ==> f1.subrange(a + 8 * len, a + 12 * len) == u32s_bytes(nl.counts)
        }),
{
    let l = m.levels[level];
    let d = m.dir_size();
    let fl = m.file_len as int;
    let a = align8(fl);
    let nl = moved_level(l, dims, fl);
    let len = nl.offsets.len() as int;
    let next = next_dir(m.levels, level);
    let enc = spec_encode_directory(nl, next, m.codec, m.color_model, m.channels, m.ycbcr_subsampling);
    let pad = zeros(a - fl);
    let tail = arrays_tail(nl);
    let f1 = file + resize_payload(m, level, dims);
    lemma_moved_place(m, level, dims);
    lemma_directory_len(nl, next, m.codec, m.color_model, m.channels, m.ycbcr_subsampling);
    assert(file.len() == fl);
    assert(f1 =~= file + pad + tail + enc);
    let dir = nl.dir_offset as int;
    assert(f1.subrange(dir, dir + d) =~= enc);
    if len > 1 {
        lemma_u64s_read(nl.offsets, 0);
        assert(f1.subrange(a, a + 8 * len) =~= u64s_bytes(nl.offsets));
    }
    if len > 2 {
        lemma_u32s_read(nl.counts, 0);
        assert(f1.subrange(a + 8 * len, a + 12 * len) =~= u32s_bytes(nl.counts));
    }
}

/// The resized level reads back from the appended bytes: its directory,
/// and its arrays from the next multiple of 8.
#[verifier::spinoff_prover]
#[verifier::rlimit(50)]
proof fn lemma_resize_new_level(file: Seq<u8>, m: WriterModel, level: int, dims: (u64, u64))
    requires
        resize_ok(file, m, level, dims),
    ensures
        ({
            let t = resized_model(m, level, dims);
            let f = resized_file(file, m, level, dims);
            &&& f.subrange(t.levels[level].dir_offset as int, t.levels[level].dir_offset + t.dir_size())
                == spec_encode_directory(
                t.levels[level],
                next_dir(t.levels, level),
                t.codec,
                t.color_model,
                t.channels,
                t.ycbcr_subsampling,
            )
            &&& level_in_file(t.levels[level], f)
            &&& regions_apart(t.levels[level], t.dir_size())
            &&& forall|p: int| #[trigger] owned(t.levels[level], t.dir_size(), p) ==> m.file_len <= p
        }),
{
    let t = resized_model(m, level, dims);
    let l = m.levels[level];
    let d = m.dir_size();
    let fl = m.file_len as int;
    let a = align8(fl);
    let nl = moved_level(l, dims, fl);
    let len = nl.offsets.len() as int;
    let next = next_dir(m.levels, level);
    let f1 = file + resize_payload(m, level, dims);
    lemma_moved_place(m, level, dims);
    lemma_resize_ops_file(file, m, level, dims);
    lemma_link_facts(m, level);
    lemma_payload_parts(file, m, level, dims);
    lemma_slot_u64(nl.dir_offset);
    assert(t.levels[level] == nl);
    assert forall|j: int| 0 <= j < t.levels.len() && j != level implies #[trigger] t.levels[j].dir_offset
        == m.levels[j].dir_offset by {}
    assert(next_dir(t.levels, level) == next);
    let o = link_to(m, level) as int;
    let dir = nl.dir_offset as int;
    lemma_write_inside(f1, o, u64_bytes(nl.dir_offset), dir, dir + d);
    if len > 1 {
        lemma_write_inside(f1, o, u64_bytes(nl.dir_offset), a, a + 8 * len);
    }
    if len > 2 {
        lemma_write_inside(f1, o, u64_bytes(nl.dir_offset), a + 8 * len, a + 12 * len);
    }
    assert(level_in_file(l, file));
    lemma_wf_level_pub(m, level);
    lemma_resized_values(l, dims, fl, file.len() as int);
}

/// The other directories keep their bytes, the one before the resized
/// level now leading to it.
#[verifier::spinoff_prover]
proof fn lemma_resize_old_dir(file: Seq<u8>, m: WriterModel, level: int, dims: (u64, u64), j: int)
    requires
        resize_ok(file, m, level, dims),
        0 <= j < m.levels.len(),
        j != level,
    ensures
        ({
            let t = resized_model(m, level, dims);
            resized_file(file, m, level, dims).subrange(
                t.levels[j].dir_offset as int,
                t.levels[j].dir_offset + t.dir_size(),
            ) == spec_encode_directory(
                t.levels[j],
                next_dir(t.levels, j),
                t.codec,
                t.color_model,
                t.channels,
                t.ycbcr_subsampling,
            )
        }),
{
    let t = resized_model(m, level, dims);
    let d = m.dir_size();
    let nl = moved_level(m.levels[level], dims, m.file_len as int);
    let f1 = file + resize_payload(m, level, dims);
    let l = m.levels[j];
    lemma_resize_ops_file(file, m, level, dims);
    lemma_link_facts(m, level);
    lemma_slot_u64(nl.dir_offset);
    assert(t.levels[j] == l);
    lemma_wf_level_pub(m, j);
    let x = l.dir_offset as int;
    let y = x + d;
    assert(file.subrange(x, y) == spec_encode_directory(l, next_dir(m.levels, j), m.codec, m.color_model, m.channels, m.ycbcr_subsampling));
    if level > 0 && j == level - 1 {
        assert(next_dir(t.levels, j) == nl.dir_offset);
        assert(f1.subrange(x, y) =~= file.subrange(x, y));
        lemma_write_inside(f1, link_to(m, level) as int, u64_bytes(nl.dir_offset), x, y);
        lemma_relink_dir(l, next_dir(m.levels, j), nl.dir_offset, m.codec, m.color_model, m.channels, m.ycbcr_subsampling);
    } else {
        assert forall|p: int| x <= p < y implies #[trigger] owned(m.levels[j], d, p) by {}
        lemma_resize_keeps(file, m, level, dims, j, x, y);
        assert(next_dir(t.levels, j) == next_dir(m.levels, j));
    }
}

/// The other levels keep their arrays.
#[verifier::spinoff_prover]
proof fn lemma_resize_old_level(file: Seq<u8>, m: WriterModel, level: int, dims: (u64, u64), j: int)
    requires
        resize_ok(file, m, level, dims),
        0 <= j < m.levels.len(),
        j != level,
    ensures
        level_in_file(resized_model(m, level, dims).levels[j], resized_file(file, m, level, dims)),
{
    let t = resized_model(m, level, dims);
    let d = m.dir_size();
    let nl = moved_level(m.levels[level], dims, m.file_len as int);
    let f1 = file + resize_payload(m, level, dims);
    let l = m.levels[j];
    let o = link_to(m, level) as int;
    lemma_resize_ops_file(file, m, level, dims);
    lemma_link_facts(m, level);
    lemma_slot_u64(nl.dir_offset);
    assert(t.levels[j] == l);
    assert(level_in_file(l, file));
    lemma_wf_level_pub(m, j);
    assert(regions_apart(l, d));
    if l.offsets.len() > 1 {
        let x = l.offsets_base as int;
        let y = x + 8 * l.offsets.len();
        if level > 0 && j == level - 1 {
            assert(f1.subrange(x, y) =~= file.subrange(x, y));
            lemma_write_inside(f1, o, u64_bytes(nl.dir_offset), x, y);
        } else {
            assert forall|p: int| x <= p < y implies #[trigger] owned(l, d, p) by {}
            lemma_resize_keeps(file, m, level, dims, j, x, y);
        }
    }
    if l.counts.len() > 2 {
        let x = l.counts_base as int;
        let y = x + 4 * l.counts.len();
        if level > 0 && j == level - 1 {
            assert(f1.subrange(x, y) =~= file.subrange(x, y));
            lemma_write_inside(f1, o, u64_bytes(nl.dir_offset), x, y);
        } else {
            assert forall|p: int| x <= p < y implies #[trigger] owned(l, d, p) by {}
            lemma_resize_keeps(file, m, level, dims, j, x, y);
        }
    }
}

/// The header leads to the first directory.
#[verifier::spinoff_prover]
proof fn lemma_resize_header(file: Seq<u8>, m: WriterModel, level: int, dims: (u64, u64))
    requires
        resize_ok(file, m, level, dims),
    ensures
        resized_file(file, m, level, dims).subrange(0, 16) == header_for(resized_model(m, level, dims).levels[0].dir_offset),
{
    let t = resized_model(m, level, dims);
    let nl = moved_level(m.levels[level], dims, m.file_len as int);
    let f1 = file + resize_payload(m, level, dims);
    lemma_resize_ops_file(file, m, level, dims);
    lemma_link_facts(m, level);
    lemma_slot_u64(nl.dir_offset);
    assert(f1.subrange(0, 16) =~= file.subrange(0, 16));
    lemma_write_inside(f1, link_to(m, level) as int, u64_bytes(nl.dir_offset), 0, 16);
    if level == 0 {
        assert(t.levels[0].dir_offset == nl.dir_offset);
        assert(header_for(m.levels[0].dir_offset) =~= header_magic() + u64_bytes(m.levels[0].dir_offset));
        assert(write_at(header_for(m.levels[0].dir_offset), 8, u64_bytes(nl.dir_offset)) =~= header_for(nl.dir_offset));
    } else {
        assert(t.levels[0] == m.levels[0]);
    }
}

/// Every byte of a level of a well-formed writer lies inside its file.
#[verifier::spinoff_prover]
proof fn lemma_owned_in_file(m: WriterModel)
    requires
        m.wf(),
        separated(m),
    ensures
        forall|i: int, p: int|
            0 <= i < m.levels.len() && #[trigger] owned(m.levels[i], m.dir_size(), p) ==> 16 <= p < m.file_len,
{
    assert forall|i: int, p: int| 0 <= i < m.levels.len() && #[trigger] owned(m.levels[i], m.dir_size(), p) implies 16
        <= p < m.file_len by {
        lemma_wf_level_pub(m, i);
    }
}

/// The bytes of the levels stay apart, and their directories distinct.
#[verifier::spinoff_prover]
proof fn lemma_resize_separated(file: Seq<u8>, m: WriterModel, level: int, dims: (u64, u64))
    requires
        resize_ok(file, m, level, dims),
    ensures
        separated(resized_model(m, level, dims)),
        forall|i: int, j: int|
            0 <= i < j < resized_model(m, level, dims).levels.len() ==> (#[trigger] resized_model(
                m,
                level,
                dims,
            ).levels[i]).dir_offset != (#[trigger] resized_model(m, level, dims).levels[j]).dir_offset,
{
    let t = resized_model(m, level, dims);
    let d = m.dir_size();
    lemma_resize_new_level(file, m, level, dims);
    lemma_owned_in_file(m);
    lemma_link_facts(m, level);
    assert(t.dir_size() == d);
    let nl = t.levels[level];
    assert(owned(nl, d, nl.dir_offset as int));
    assert forall|i: int, p: int| 0 <= i < t.levels.len() && #[trigger] owned(t.levels[i], t.dir_size(), p) implies 16 <= p by {
        if i != level {
            assert(t.levels[i] == m.levels[i]);
        }
    }
    assert forall|i: int, j: int, p: int|
        0 <= i < t.levels.len() && 0 <= j < t.levels.len() && i != j && #[trigger] owned(t.levels[i], t.dir_size(), p)
            implies !#[trigger] owned(t.levels[j], t.dir_size(), p) by {
        if i != level && j != level {
            assert(t.levels[i] == m.levels[i] && t.levels[j] == m.levels[j]);
        } else if i == level {
            assert(t.levels[j] == m.levels[j]);
        } else {
            assert(t.levels[i] == m.levels[i]);
        }
    }
    assert forall|i: int| 0 <= i < t.levels.len() implies regions_apart(#[trigger] t.levels[i], t.dir_size()) by {
        if i != level {
            assert(t.levels[i] == m.levels[i]);
        }
    }
    assert forall|i: int, j: int| 0 <= i < j < t.levels.len() implies (#[trigger] t.levels[i]).dir_offset != (
    #[trigger] t.levels[j]).dir_offset by {
        if i != level && j != level {
            assert(t.levels[i] == m.levels[i] && t.levels[j] == m.levels[j]);
        } else if i == level {
            assert(t.levels[j] == m.levels[j]);
            assert(owned(m.levels[j], d, m.levels[j].dir_offset as int));
        } else {
            assert(t.levels[i] == m.levels[i]);
            assert(owned(m.levels[i], d, m.levels[i].dir_offset as int));
        }
    }
}

/// Resizing keeps a file whole: applied to a file that holds what the
/// writer has written, the writes of `set_dimensions` leave a file that
/// holds every level, the resized one included, with their bytes still
/// apart.
#[verifier::spinoff_prover]
pub proof fn lemma_resize_realizes(file: Seq<u8>, m: WriterModel, level: int, dims: (u64, u64))
    requires
        resize_ok(file, m, level, dims),
    ensures
        realizes(apply_ops(file, resize_ops(m, level, dims)), resized_model(m, level, dims)),
        separated(resized_model(m, level, dims)),
{
    let t = resized_model(m, level, dims);
    let f = resized_file(file, m, level, dims);
    lemma_resize_ops_file(file, m, level, dims);
    lemma_resize_header(file, m, level, dims);
    lemma_resize_new_level(file, m, level, dims);
    lemma_resize_separated(file, m, level, dims);
    assert forall|j: int| 0 <= j < t.levels.len() implies f.subrange(
        (#[trigger] t.levels[j]).dir_offset as int,
        t.levels[j].dir_offset + t.dir_size(),
    ) == spec_encode_directory(t.levels[j], next_dir(t.levels, j), t.codec, t.color_model, t.channels, t.ycbcr_subsampling)
        && level_in_file(t.levels[j], f) by {
        if j != level {
            lemma_resize_old_dir(file, m, level, dims, j);
            lemma_resize_old_level(file, m, level, dims, j);
        }
    }
}

/// Resizing is safe to stop at any write: after each prefix of the writes
/// of `set_dimensions`, the file holds either the levels as they were (the
/// resized level only appended so far) or the resized ones (the pointer
/// switched by the last write).
#[verifier::spinoff_prover]
pub proof fn lemma_resize_every_prefix(file: Seq<u8>, m: WriterModel, level: int, dims: (u64, u64), k: int)
    requires
        resize_ok(file, m, level, dims),
        0 <= k <= 2,
    ensures
        k < 2 ==> realizes(
            apply_ops(file, resize_ops(m, level, dims).take(k)),
            WriterModel { file_len: apply_ops(file, resize_ops(m, level, dims).take(k)).len() as u64, ..m },
        ),
        k == 2 ==> realizes(apply_ops(file, resize_ops(m, level, dims).take(k)), resized_model(m, level, dims)),
{
    let ops = resize_ops(m, level, dims);
    let payload = resize_payload(m, level, dims);
    lemma_resize_ops_file(file, m, level, dims);
    lemma_moved_place(m, level, dims);
    reveal_with_fuel(apply_ops, 2);
    if k == 0 {
        assert(ops.take(0) =~= Seq::<OpModel>::empty());
        assert(WriterModel { file_len: file.len() as u64, ..m } == m);
    } else if k == 1 {
        assert(ops.take(1) =~= seq![ops[0]]);
        assert(seq![ops[0]].drop_last() =~= Seq::<OpModel>::empty());
        lemma_write_append(file, payload);
        lemma_append_keeps_levels(file, m, payload);
    } else {
        assert(ops.take(2) =~= ops);
        lemma_resize_realizes(file, m, level, dims);
    }
}

} // verus!
