//! Level edits keep a file whole: adding, removing or resizing a level of a
//! written file leaves a file that holds what the writer holds afterwards.
use vstd::prelude::*;

use crate::format::{u64_bytes};
use crate::model::{Codec, ColorModel};
use crate::reader::{header_magic};
use crate::format::{lemma_div_ceil};
use crate::writer::{
    tile_ops, tile_model, tile_model_at, tile_index,
    added_len, align8,
    dir_entries, entries_bytes, entry_count, lemma_entries_bytes_len, spec_encode_directory, zeros, LevelLayout,
    WriterModel, next_dir, dir_size, lemma_wf_level_pub, lemma_wf_basics_pub, OpModel, zeroed, lemma_directory_len,
    level_spec_valid, link_to, appended_level, add_level_ops, fresh_level, resize_growth,
};

use crate::file_image::{
    write_at, apply_ops, lemma_slot_u64, lemma_write_append, lemma_zero_u64s, lemma_zero_u32s, lemma_write_inside,
    lemma_write_mid,
};
use crate::readback::{lemma_decoded_entries, level_in_file, header_for, realizes};

use crate::writeback::{
    owned, regions_apart, separated, lemma_intervals_apart, lemma_tile_mid_realizes, lemma_tile_realizes, tile_write_ok,
};
verus! {

#[verifier::spinoff_prover]
/// Re-pointing a directory to another successor rewrites its last eight
/// bytes.
pub proof fn lemma_relink_dir(l: LevelLayout, n1: u64, n2: u64, codec: Codec, color: ColorModel, channels: u16, ycbcr: (u16, u16))
    ensures
        spec_encode_directory(l, n2, codec, color, channels, ycbcr) == write_at(
            spec_encode_directory(l, n1, codec, color, channels, ycbcr),
            dir_size(codec, color) - 8,
            u64_bytes(n2),
        ),
{
    reveal(spec_encode_directory);
    let es = dir_entries(l, codec, color, channels, ycbcr);
    let a = u64_bytes(entry_count(codec, color) as u64) + entries_bytes(es);
    lemma_slot_u64(n1);
    lemma_slot_u64(n2);
    lemma_slot_u64(entry_count(codec, color) as u64);
    lemma_decoded_entries(l, codec, color, channels, ycbcr);
    lemma_entries_bytes_len(es);
    lemma_write_mid(a, u64_bytes(n1), Seq::empty(), 0, u64_bytes(n2));
    assert(write_at(u64_bytes(n1), 0, u64_bytes(n2)) =~= u64_bytes(n2));
    assert(a + u64_bytes(n1) + Seq::<u8>::empty() =~= a + u64_bytes(n1));
    assert(a + u64_bytes(n2) + Seq::<u8>::empty() =~= a + u64_bytes(n2));
}


/// The writer once level `index` of a written file is unlinked.
pub open spec fn removed_model(m: WriterModel, index: int) -> WriterModel {
    WriterModel { levels: m.levels.remove(index), ..m }
}

/// The write that unlinks level `index`.
pub open spec fn unlink_ops(m: WriterModel, index: int) -> Seq<OpModel> {
    seq![OpModel { offset: link_to(m, index), bytes: u64_bytes(next_dir(m.levels, index)) }]
}

#[verifier::spinoff_prover]
/// Where the link to level `index` lies: in the header, or at the end of
/// the directory before it.
proof fn lemma_link_place(m: WriterModel, index: int)
    requires
        m.wf(),
        separated(m),
        0 <= index < m.levels.len(),
    ensures
        index == 0 ==> link_to(m, index) == 8,
        index > 0 ==> link_to(m, index) + 8 == m.levels[index - 1].dir_offset + m.dir_size(),
        index > 0 ==> m.levels[index - 1].dir_offset <= link_to(m, index),
        index > 0 ==> forall|p: int|
            link_to(m, index) <= p < link_to(m, index) + 8 ==> #[trigger] owned(m.levels[index - 1], m.dir_size(), p),
        index > 0 ==> 16 <= link_to(m, index),
        link_to(m, index) + 8 <= m.file_len,
{
    lemma_wf_basics_pub(m);
    lemma_wf_level_pub(m, 0);
    if index > 0 {
        lemma_wf_level_pub(m, index - 1);
        assert(m.dir_size() >= 236);
    }
}

#[verifier::spinoff_prover]
/// A range owned by a level keeps its bytes when another level is
/// unlinked, unless the link lies in it.
proof fn lemma_unlink_keeps(file: Seq<u8>, m: WriterModel, index: int, j: int, x: int, y: int)
    requires
        m.wf(),
        realizes(file, m),
        separated(m),
        0 <= index < m.levels.len(),
        0 <= j < m.levels.len(),
        index == 0 || j != index - 1,
        0 <= x < y <= file.len(),
        forall|p: int| x <= p < y ==> #[trigger] owned(m.levels[j], m.dir_size(), p),
    ensures
        write_at(file, link_to(m, index) as int, u64_bytes(next_dir(m.levels, index))).subrange(x, y)
            == file.subrange(x, y),
{
    lemma_link_place(m, index);
    lemma_slot_u64(next_dir(m.levels, index));
    let o = link_to(m, index) as int;
    if index == 0 {
        assert(owned(m.levels[j], m.dir_size(), x));
        assert(16 <= x);
    } else {
        lemma_intervals_apart(m, j, index - 1, x, y, o, 8);
    }
    lemma_write_inside(file, o, u64_bytes(next_dir(m.levels, index)), x, y);
}

#[verifier::spinoff_prover]
proof fn lemma_unlink_dirs(file: Seq<u8>, m: WriterModel, index: int)
    requires
        m.wf(),
        realizes(file, m),
        separated(m),
        m.levels.len() > 1,
        0 <= index < m.levels.len(),
    ensures
        ({
            let t = removed_model(m, index);
            let f = write_at(file, link_to(m, index) as int, u64_bytes(next_dir(m.levels, index)));
            forall|j: int|
                0 <= j < t.levels.len() ==> f.subrange(
                    (#[trigger] t.levels[j]).dir_offset as int,
                    t.levels[j].dir_offset + t.dir_size(),
                ) == spec_encode_directory(
                    t.levels[j],
                    next_dir(t.levels, j),
                    t.codec,
                    t.color_model,
                    t.channels,
                    t.ycbcr_subsampling,
                )
        }),
{
    let t = removed_model(m, index);
    let n = m.levels.len() as int;
    let d = m.dir_size();
    let nx = next_dir(m.levels, index);
    let f = write_at(file, link_to(m, index) as int, u64_bytes(nx));
    lemma_link_place(m, index);
    lemma_slot_u64(nx);
    assert forall|j: int| 0 <= j < t.levels.len() implies f.subrange(
        (#[trigger] t.levels[j]).dir_offset as int,
        t.levels[j].dir_offset + t.dir_size(),
    ) == spec_encode_directory(t.levels[j], next_dir(t.levels, j), t.codec, t.color_model, t.channels, t.ycbcr_subsampling) by {
        let jj = if j < index {
            j
        } else {
            j + 1
        };
        let l = m.levels[jj];
        assert(t.levels[j] == l);
        lemma_wf_level_pub(m, jj);
        let x = l.dir_offset as int;
        let y = x + d;
        assert(file.subrange(x, y) == spec_encode_directory(l, next_dir(m.levels, jj), m.codec, m.color_model, m.channels, m.ycbcr_subsampling));
        if index > 0 && jj == index - 1 {
            assert(next_dir(t.levels, j) == nx);
            lemma_write_inside(file, link_to(m, index) as int, u64_bytes(nx), x, y);
            lemma_relink_dir(l, next_dir(m.levels, jj), nx, m.codec, m.color_model, m.channels, m.ycbcr_subsampling);
        } else {
            assert forall|p: int| x <= p < y implies #[trigger] owned(m.levels[jj], d, p) by {}
            lemma_unlink_keeps(file, m, index, jj, x, y);
            assert(next_dir(t.levels, j) == next_dir(m.levels, jj));
        }
    }
}

#[verifier::spinoff_prover]
proof fn lemma_unlink_levels(file: Seq<u8>, m: WriterModel, index: int)
    requires
        m.wf(),
        realizes(file, m),
        separated(m),
        m.levels.len() > 1,
        0 <= index < m.levels.len(),
    ensures
        ({
            let t = removed_model(m, index);
            let f = write_at(file, link_to(m, index) as int, u64_bytes(next_dir(m.levels, index)));
            forall|j: int| 0 <= j < t.levels.len() ==> level_in_file(#[trigger] t.levels[j], f)
        }),
{
    let t = removed_model(m, index);
    let d = m.dir_size();
    let nx = next_dir(m.levels, index);
    let f = write_at(file, link_to(m, index) as int, u64_bytes(nx));
    lemma_link_place(m, index);
    lemma_slot_u64(nx);
    lemma_write_inside(file, link_to(m, index) as int, u64_bytes(nx), 0, file.len() as int);
    assert forall|j: int| 0 <= j < t.levels.len() implies level_in_file(#[trigger] t.levels[j], f) by {
        let jj = if j < index {
            j
        } else {
            j + 1
        };
        let l = m.levels[jj];
        assert(t.levels[j] == l);
        assert(level_in_file(l, file));
        lemma_wf_level_pub(m, jj);
        assert(regions_apart(l, d));
        if l.offsets.len() > 1 {
            let x = l.offsets_base as int;
            let y = x + 8 * l.offsets.len();
            if index > 0 && jj == index - 1 {
                lemma_write_inside(file, link_to(m, index) as int, u64_bytes(nx), x, y);
            } else {
                assert forall|p: int| x <= p < y implies #[trigger] owned(l, d, p) by {}
                lemma_unlink_keeps(file, m, index, jj, x, y);
            }
        }
        if l.counts.len() > 2 {
            let x = l.counts_base as int;
            let y = x + 4 * l.counts.len();
            if index > 0 && jj == index - 1 {
                lemma_write_inside(file, link_to(m, index) as int, u64_bytes(nx), x, y);
            } else {
                assert forall|p: int| x <= p < y implies #[trigger] owned(l, d, p) by {}
                lemma_unlink_keeps(file, m, index, jj, x, y);
            }
        }
    }
}

/// Unlinking a level keeps a file whole: applied to a file that holds what
/// the writer has written, the write of `remove_level` leaves a file that
/// holds the remaining levels, with their bytes still apart.
#[verifier::spinoff_prover]
pub proof fn lemma_remove_realizes(file: Seq<u8>, m: WriterModel, index: int)
    requires
        m.wf(),
        realizes(file, m),
        separated(m),
        m.levels.len() > 1,
        0 <= index < m.levels.len(),
    ensures
        realizes(apply_ops(file, unlink_ops(m, index)), removed_model(m, index)),
        separated(removed_model(m, index)),
{
    let t = removed_model(m, index);
    let n = m.levels.len() as int;
    let d = m.dir_size();
    let nx = next_dir(m.levels, index);
    let f = write_at(file, link_to(m, index) as int, u64_bytes(nx));
    let ops = unlink_ops(m, index);
    reveal_with_fuel(apply_ops, 2);
    assert(ops.drop_last() =~= Seq::<OpModel>::empty());
    lemma_link_place(m, index);
    lemma_slot_u64(nx);
    lemma_write_inside(file, link_to(m, index) as int, u64_bytes(nx), 0, file.len() as int);
    lemma_unlink_dirs(file, m, index);
    lemma_unlink_levels(file, m, index);
    // The header.
    if index == 0 {
        assert(nx == m.levels[1].dir_offset);
        assert(t.levels[0] == m.levels[1]);
        lemma_write_inside(file, 8, u64_bytes(nx), 0, 16);
        assert(header_for(m.levels[0].dir_offset) =~= header_magic() + u64_bytes(m.levels[0].dir_offset));
        assert(write_at(header_for(m.levels[0].dir_offset), 8, u64_bytes(nx)) =~= header_for(nx));
    } else {
        lemma_write_inside(file, link_to(m, index) as int, u64_bytes(nx), 0, 16);
        assert(t.levels[0] == m.levels[0]);
    }
    // Distinct directories and separated bytes carry over.
    assert forall|i: int, j: int| 0 <= i < j < t.levels.len() implies (#[trigger] t.levels[i]).dir_offset != (
    #[trigger] t.levels[j]).dir_offset by {
        let ii = if i < index {
            i
        } else {
            i + 1
        };
        let jj = if j < index {
            j
        } else {
            j + 1
        };
        assert(m.levels[ii].dir_offset != m.levels[jj].dir_offset);
    }
    assert forall|i: int, p: int| 0 <= i < t.levels.len() && #[trigger] owned(t.levels[i], t.dir_size(), p) implies 16 <= p by {
        let ii = if i < index {
            i
        } else {
            i + 1
        };
        assert(owned(m.levels[ii], d, p));
    }
    assert forall|i: int, j: int, p: int|
        0 <= i < t.levels.len() && 0 <= j < t.levels.len() && i != j && #[trigger] owned(t.levels[i], t.dir_size(), p)
            implies !#[trigger] owned(t.levels[j], t.dir_size(), p) by {
        let ii = if i < index {
            i
        } else {
            i + 1
        };
        let jj = if j < index {
            j
        } else {
            j + 1
        };
        assert(owned(m.levels[ii], d, p));
        assert(!owned(m.levels[jj], d, p));
    }
    assert forall|i: int| 0 <= i < t.levels.len() implies regions_apart(#[trigger] t.levels[i], t.dir_size()) by {
        let ii = if i < index {
            i
        } else {
            i + 1
        };
        assert(regions_apart(m.levels[ii], d));
    }
}

/// The writer once a fresh level is appended to a written file and linked
/// in at `index`.
pub open spec fn added_model(m: WriterModel, index: int, fresh: LevelLayout) -> WriterModel {
    WriterModel {
        levels: m.levels.insert(index, appended_level(fresh, m.dir_size(), m.file_len as int)),
        file_len: added_len(m, fresh) as u64,
        ..m
    }
}

/// What adding a fresh level to a written file is proved under.
pub open spec fn add_ok(file: Seq<u8>, m: WriterModel, index: int, fresh: LevelLayout) -> bool {
    &&& m.wf()
    &&& realizes(file, m)
    &&& separated(m)
    &&& 0 <= index <= m.levels.len()
    &&& m.levels.len() < usize::MAX
    &&& level_spec_valid((fresh.width, fresh.height), (fresh.tile_width, fresh.tile_height))
    &&& fresh == fresh_level((fresh.width, fresh.height), (fresh.tile_width, fresh.tile_height))
    &&& fresh.width <= u32::MAX
    &&& fresh.height <= u32::MAX
    &&& added_len(m, fresh) <= u64::MAX
}

/// The level of `t.levels` at `j`, with the new one at `index`.
pub open spec fn level_before_add(index: int, j: int) -> int {
    if j < index {
        j
    } else {
        j - 1
    }
}

#[verifier::spinoff_prover]
proof fn lemma_fresh_facts(fresh: LevelLayout)
    requires
        level_spec_valid((fresh.width, fresh.height), (fresh.tile_width, fresh.tile_height)),
        fresh == fresh_level((fresh.width, fresh.height), (fresh.tile_width, fresh.tile_height)),
    ensures
        fresh.wf(),
        fresh.tile_count() >= 1,
        fresh.offsets.len() == fresh.tile_count(),
        fresh.counts.len() == fresh.tile_count(),
        forall|k: int| 0 <= k < fresh.offsets.len() ==> #[trigger] fresh.offsets[k] == 0 && fresh.counts[k] == 0,
{
    lemma_div_ceil(fresh.width as int, fresh.tile_width as int);
    lemma_div_ceil(fresh.height as int, fresh.tile_height as int);
    assert(fresh.tiles_across * fresh.tiles_down >= 1) by (nonlinear_arith)
        requires fresh.tiles_across * fresh.tile_width >= fresh.width, fresh.width > 0, fresh.tile_width > 0,
            fresh.tiles_down * fresh.tile_height >= fresh.height, fresh.height > 0, fresh.tile_height > 0,
            fresh.tiles_across >= 0, fresh.tiles_down >= 0;
}

#[verifier::spinoff_prover]
proof fn lemma_add_link_place(m: WriterModel, index: int)
    requires
        m.wf(),
        separated(m),
        0 <= index <= m.levels.len(),
    ensures
        index == 0 ==> link_to(m, index) == 8,
        index > 0 ==> link_to(m, index) + 8 == m.levels[index - 1].dir_offset + m.dir_size(),
        index > 0 ==> m.levels[index - 1].dir_offset <= link_to(m, index),
        index > 0 ==> forall|p: int|
            link_to(m, index) <= p < link_to(m, index) + 8 ==> #[trigger] owned(m.levels[index - 1], m.dir_size(), p),
        index > 0 ==> 16 <= link_to(m, index),
        link_to(m, index) + 8 <= m.file_len,
{
    lemma_wf_basics_pub(m);
    lemma_wf_level_pub(m, 0);
    if index > 0 {
        lemma_wf_level_pub(m, index - 1);
        assert(m.dir_size() >= 236);
    }
}

/// The file after adding a level: the new directory and zeroed arrays
/// appended, then the link patched.
pub open spec fn added_file(file: Seq<u8>, m: WriterModel, index: int, fresh: LevelLayout) -> Seq<u8> {
    write_at(file + add_level_ops(m, index, fresh)[0].bytes, link_to(m, index) as int, u64_bytes(m.file_len))
}

#[verifier::spinoff_prover]
proof fn lemma_add_ops_file(file: Seq<u8>, m: WriterModel, index: int, fresh: LevelLayout)
    requires
        add_ok(file, m, index, fresh),
    ensures
        apply_ops(file, add_level_ops(m, index, fresh)) == added_file(file, m, index, fresh),
        added_file(file, m, index, fresh).len() == added_model(m, index, fresh).file_len,
        (file + add_level_ops(m, index, fresh)[0].bytes).len() == added_model(m, index, fresh).file_len,
{
    let ops = add_level_ops(m, index, fresh);
    let nl = appended_level(fresh, m.dir_size(), m.file_len as int);
    let next = if index < m.levels.len() {
        m.levels[index].dir_offset
    } else {
        0
    };
    lemma_fresh_facts(fresh);
    lemma_directory_len(nl, next, m.codec, m.color_model, m.channels, m.ycbcr_subsampling);
    lemma_add_link_place(m, index);
    lemma_slot_u64(m.file_len);
    reveal_with_fuel(apply_ops, 3);
    assert(ops.drop_last().drop_last() =~= Seq::<OpModel>::empty());
    assert(ops.drop_last() =~= seq![ops[0]]);
    lemma_write_append(file, ops[0].bytes);
    let f1 = file + ops[0].bytes;
    lemma_write_inside(f1, link_to(m, index) as int, u64_bytes(m.file_len), 0, f1.len() as int);
}

#[verifier::spinoff_prover]
/// A range of the file before the new level keeps its bytes, unless the
/// link lies in it.
proof fn lemma_add_keeps(file: Seq<u8>, m: WriterModel, index: int, fresh: LevelLayout, j: int, x: int, y: int)
    requires
        add_ok(file, m, index, fresh),
        0 <= j < m.levels.len(),
        index == 0 || j != index - 1,
        0 <= x < y <= file.len(),
        forall|p: int| x <= p < y ==> #[trigger] owned(m.levels[j], m.dir_size(), p),
    ensures
        added_file(file, m, index, fresh).subrange(x, y) == file.subrange(x, y),
{
    lemma_add_ops_file(file, m, index, fresh);
    lemma_add_link_place(m, index);
    lemma_slot_u64(m.file_len);
    let o = link_to(m, index) as int;
    let f1 = file + add_level_ops(m, index, fresh)[0].bytes;
    if index == 0 {
        assert(owned(m.levels[j], m.dir_size(), x));
    } else {
        lemma_intervals_apart(m, j, index - 1, x, y, o, 8);
    }
    assert(f1.subrange(x, y) =~= file.subrange(x, y));
    lemma_write_inside(f1, o, u64_bytes(m.file_len), x, y);
}

/// What the appended bytes hold: the new directory, then zeros up to the
/// next multiple of 8 and the zeroed arrays.
#[verifier::spinoff_prover]
proof fn lemma_add_payload(file: Seq<u8>, m: WriterModel, index: int, fresh: LevelLayout)
    requires
        add_ok(file, m, index, fresh),
    ensures
        ({
            let d = m.dir_size();
            let fl = m.file_len as int;
            let a = align8(fl + d);
            let nl = appended_level(fresh, d, fl);
            let len = fresh.tile_count();
            let next = if index < m.levels.len() {
                m.levels[index].dir_offset
            } else {
                0
            };
            let f1 = file + add_level_ops(m, index, fresh)[0].bytes;
            &&& fl + d <= a < fl + d + 8
            &&& f1.len() == a + resize_growth(len)
            &&& f1.subrange(fl, fl + d) == spec_encode_directory(
                nl,
                next,
                m.codec,
                m.color_model,
                m.channels,
                m.ycbcr_subsampling,
            )
            &&& len > 1 ==> f1.subrange(a, a + 8 * len) == zeros(8 * len)
            &&& len > 2 ==> f1.subrange(a + 8 * len, a + 12 * len) == zeros(4 * len)
        }),
{
    let d = m.dir_size();
    let fl = m.file_len as int;
    let a = align8(fl + d);
    let nl = appended_level(fresh, d, fl);
    let len = fresh.tile_count();
    let g = resize_growth(len);
    let next = if index < m.levels.len() {
        m.levels[index].dir_offset
    } else {
        0
    };
    let enc = spec_encode_directory(nl, next, m.codec, m.color_model, m.channels, m.ycbcr_subsampling);
    let f1 = file + add_level_ops(m, index, fresh)[0].bytes;
    lemma_fresh_facts(fresh);
    lemma_directory_len(nl, next, m.codec, m.color_model, m.channels, m.ycbcr_subsampling);
    let z = zeros(a - (fl + d) + g);
    assert(f1 =~= file + enc + z);
    assert(file.len() == fl);
    assert(f1.subrange(fl, fl + d) =~= enc);
    if len > 1 {
        assert(f1.subrange(a, a + 8 * len) =~= zeros(8 * len));
    }
    if len > 2 {
        assert(f1.subrange(a + 8 * len, a + 12 * len) =~= zeros(4 * len));
    }
}

#[verifier::spinoff_prover]
proof fn lemma_add_new_dir(file: Seq<u8>, m: WriterModel, index: int, fresh: LevelLayout)
    requires
        add_ok(file, m, index, fresh),
    ensures
        ({
            let t = added_model(m, index, fresh);
            added_file(file, m, index, fresh).subrange(
                t.levels[index].dir_offset as int,
                t.levels[index].dir_offset + t.dir_size(),
            ) == spec_encode_directory(
                t.levels[index],
                next_dir(t.levels, index),
                t.codec,
                t.color_model,
                t.channels,
                t.ycbcr_subsampling,
            )
        }),
{
    let t = added_model(m, index, fresh);
    let d = m.dir_size();
    let fl = m.file_len as int;
    let nl = appended_level(fresh, d, fl);
    let n = m.levels.len() as int;
    let next = if index < n {
        m.levels[index].dir_offset
    } else {
        0
    };
    let payload = add_level_ops(m, index, fresh)[0].bytes;
    let f1 = file + payload;
    lemma_add_ops_file(file, m, index, fresh);
    lemma_add_link_place(m, index);
    lemma_add_payload(file, m, index, fresh);
    lemma_slot_u64(m.file_len);
    assert(t.levels[index] == nl);
    assert(next_dir(t.levels, index) == next);
    lemma_write_inside(f1, link_to(m, index) as int, u64_bytes(m.file_len), fl, fl + d);
}

#[verifier::spinoff_prover]
proof fn lemma_add_old_dir(file: Seq<u8>, m: WriterModel, index: int, fresh: LevelLayout, j: int)
    requires
        add_ok(file, m, index, fresh),
        0 <= j <= m.levels.len(),
        j != index,
    ensures
        ({
            let t = added_model(m, index, fresh);
            added_file(file, m, index, fresh).subrange(
                t.levels[j].dir_offset as int,
                t.levels[j].dir_offset + t.dir_size(),
            ) == spec_encode_directory(
                t.levels[j],
                next_dir(t.levels, j),
                t.codec,
                t.color_model,
                t.channels,
                t.ycbcr_subsampling,
            )
        }),
{
    let t = added_model(m, index, fresh);
    let d = m.dir_size();
    let payload = add_level_ops(m, index, fresh)[0].bytes;
    let f1 = file + payload;
    let jj = level_before_add(index, j);
    let l = m.levels[jj];
    lemma_add_ops_file(file, m, index, fresh);
    lemma_add_link_place(m, index);
    lemma_slot_u64(m.file_len);
    assert(t.levels[j] == l);
    lemma_wf_level_pub(m, jj);
    let x = l.dir_offset as int;
    let y = x + d;
    assert(file.subrange(x, y) == spec_encode_directory(l, next_dir(m.levels, jj), m.codec, m.color_model, m.channels, m.ycbcr_subsampling));
    if index > 0 && jj == index - 1 {
        assert(next_dir(t.levels, j) == m.file_len);
        assert(f1.subrange(x, y) =~= file.subrange(x, y));
        lemma_write_inside(f1, link_to(m, index) as int, u64_bytes(m.file_len), x, y);
        lemma_relink_dir(l, next_dir(m.levels, jj), m.file_len, m.codec, m.color_model, m.channels, m.ycbcr_subsampling);
    } else {
        assert forall|p: int| x <= p < y implies #[trigger] owned(m.levels[jj], d, p) by {}
        lemma_add_keeps(file, m, index, fresh, jj, x, y);
        assert(next_dir(t.levels, j) == next_dir(m.levels, jj));
    }
}

/// The bytes that adding a level appends lie in the appended part of the
/// file, and read there as the new level's arrays.
#[verifier::spinoff_prover]
proof fn lemma_add_new_level(file: Seq<u8>, m: WriterModel, index: int, fresh: LevelLayout)
    requires
        add_ok(file, m, index, fresh),
    ensures
        level_in_file(added_model(m, index, fresh).levels[index], added_file(file, m, index, fresh)),
        regions_apart(added_model(m, index, fresh).levels[index], m.dir_size()),
        forall|p: int|
            #[trigger] owned(added_model(m, index, fresh).levels[index], m.dir_size(), p) ==> m.file_len <= p,
{
    let t = added_model(m, index, fresh);
    let d = m.dir_size();
    let fl = m.file_len as int;
    let a = align8(fl + d);
    let nl = appended_level(fresh, d, fl);
    let len = fresh.tile_count();
    let f1 = file + add_level_ops(m, index, fresh)[0].bytes;
    let f = added_file(file, m, index, fresh);
    lemma_fresh_facts(fresh);
    lemma_add_ops_file(file, m, index, fresh);
    lemma_add_link_place(m, index);
    lemma_add_payload(file, m, index, fresh);
    lemma_slot_u64(m.file_len);
    assert(t.levels[index] == nl);
    if len > 1 {
        lemma_write_inside(f1, link_to(m, index) as int, u64_bytes(m.file_len), a, a + 8 * len);
        lemma_zero_u64s(nl.offsets);
    }
    if len > 2 {
        lemma_write_inside(f1, link_to(m, index) as int, u64_bytes(m.file_len), a + 8 * len, a + 12 * len);
        lemma_zero_u32s(nl.counts);
    }
    assert forall|k: int| 0 <= k < nl.offsets.len() implies #[trigger] nl.offsets[k] + nl.counts[k] <= f.len() by {
        assert(nl.offsets[k] == 0 && nl.counts[k] == 0);
    }
}

/// The levels already written keep their arrays where the level is added.
#[verifier::spinoff_prover]
proof fn lemma_add_old_level(file: Seq<u8>, m: WriterModel, index: int, fresh: LevelLayout, j: int)
    requires
        add_ok(file, m, index, fresh),
        0 <= j <= m.levels.len(),
        j != index,
    ensures
        level_in_file(added_model(m, index, fresh).levels[j], added_file(file, m, index, fresh)),
{
    let t = added_model(m, index, fresh);
    let d = m.dir_size();
    let f1 = file + add_level_ops(m, index, fresh)[0].bytes;
    let f = added_file(file, m, index, fresh);
    let jj = level_before_add(index, j);
    let l = m.levels[jj];
    let o = link_to(m, index) as int;
    lemma_add_ops_file(file, m, index, fresh);
    lemma_add_link_place(m, index);
    lemma_slot_u64(m.file_len);
    assert(t.levels[j] == l);
    assert(level_in_file(l, file));
    lemma_wf_level_pub(m, jj);
    assert(regions_apart(l, d));
    if l.offsets.len() > 1 {
        let x = l.offsets_base as int;
        let y = x + 8 * l.offsets.len();
        if index > 0 && jj == index - 1 {
            assert(f1.subrange(x, y) =~= file.subrange(x, y));
            lemma_write_inside(f1, o, u64_bytes(m.file_len), x, y);
        } else {
            assert forall|p: int| x <= p < y implies #[trigger] owned(l, d, p) by {}
            lemma_add_keeps(file, m, index, fresh, jj, x, y);
        }
    }
    if l.counts.len() > 2 {
        let x = l.counts_base as int;
        let y = x + 4 * l.counts.len();
        if index > 0 && jj == index - 1 {
            assert(f1.subrange(x, y) =~= file.subrange(x, y));
            lemma_write_inside(f1, o, u64_bytes(m.file_len), x, y);
        } else {
            assert forall|p: int| x <= p < y implies #[trigger] owned(l, d, p) by {}
            lemma_add_keeps(file, m, index, fresh, jj, x, y);
        }
    }
}

#[verifier::spinoff_prover]
/// The header of the file once a level is added points at its first
/// directory.
proof fn lemma_add_header(file: Seq<u8>, m: WriterModel, index: int, fresh: LevelLayout)
    requires
        add_ok(file, m, index, fresh),
    ensures
        added_file(file, m, index, fresh).subrange(0, 16) == header_for(
            added_model(m, index, fresh).levels[0].dir_offset,
        ),
{
    let t = added_model(m, index, fresh);
    let f1 = file + add_level_ops(m, index, fresh)[0].bytes;
    lemma_add_ops_file(file, m, index, fresh);
    lemma_add_link_place(m, index);
    lemma_slot_u64(m.file_len);
    lemma_wf_basics_pub(m);
    lemma_wf_level_pub(m, 0);
    assert(f1.subrange(0, 16) =~= file.subrange(0, 16));
    lemma_write_inside(f1, link_to(m, index) as int, u64_bytes(m.file_len), 0, 16);
    if index == 0 {
        assert(t.levels[0].dir_offset == m.file_len);
        assert(header_for(m.levels[0].dir_offset) =~= header_magic() + u64_bytes(m.levels[0].dir_offset));
        assert(write_at(header_for(m.levels[0].dir_offset), 8, u64_bytes(m.file_len)) =~= header_for(m.file_len));
    } else {
        assert(t.levels[0] == m.levels[0]);
    }
}

#[verifier::spinoff_prover]
proof fn lemma_add_contents(file: Seq<u8>, m: WriterModel, index: int, fresh: LevelLayout)
    requires
        add_ok(file, m, index, fresh),
    ensures
        ({
            let t = added_model(m, index, fresh);
            let f = added_file(file, m, index, fresh);
            &&& forall|j: int|
                0 <= j < t.levels.len() ==> f.subrange(
                    (#[trigger] t.levels[j]).dir_offset as int,
                    t.levels[j].dir_offset + t.dir_size(),
                ) == spec_encode_directory(
                    t.levels[j],
                    next_dir(t.levels, j),
                    t.codec,
                    t.color_model,
                    t.channels,
                    t.ycbcr_subsampling,
                )
            &&& forall|j: int| 0 <= j < t.levels.len() ==> level_in_file(#[trigger] t.levels[j], f)
        }),
{
    let t = added_model(m, index, fresh);
    let f = added_file(file, m, index, fresh);
    lemma_add_new_dir(file, m, index, fresh);
    lemma_add_new_level(file, m, index, fresh);
    assert forall|j: int| 0 <= j < t.levels.len() implies f.subrange(
        (#[trigger] t.levels[j]).dir_offset as int,
        t.levels[j].dir_offset + t.dir_size(),
    ) == spec_encode_directory(t.levels[j], next_dir(t.levels, j), t.codec, t.color_model, t.channels, t.ycbcr_subsampling) by {
        if j != index {
            lemma_add_old_dir(file, m, index, fresh, j);
        }
    }
    assert forall|j: int| 0 <= j < t.levels.len() implies level_in_file(#[trigger] t.levels[j], f) by {
        if j != index {
            lemma_add_old_level(file, m, index, fresh, j);
        }
    }
}

#[verifier::spinoff_prover]
/// Every byte of a level of a well-formed writer lies inside its file.
proof fn lemma_owned_inside(m: WriterModel)
    requires
        m.wf(),
        separated(m),
    ensures
        forall|i: int, p: int|
            0 <= i < m.levels.len() && #[trigger] owned(m.levels[i], m.dir_size(), p) ==> 16 <= p < m.file_len,
{
    assert forall|i: int, p: int| 0 <= i < m.levels.len() && #[trigger] owned(m.levels[i], m.dir_size(), p) implies 16
        <= p < m.file_len by {
        lemma_wf_level_pub(m, i);
    }
}

#[verifier::spinoff_prover]
proof fn lemma_add_distinct(file: Seq<u8>, m: WriterModel, index: int, fresh: LevelLayout)
    requires
        add_ok(file, m, index, fresh),
    ensures
        forall|i: int, j: int|
            0 <= i < j < added_model(m, index, fresh).levels.len() ==> (#[trigger] added_model(
                m,
                index,
                fresh,
            ).levels[i]).dir_offset != (#[trigger] added_model(m, index, fresh).levels[j]).dir_offset,
{
    let t = added_model(m, index, fresh);
    let d = m.dir_size();
    lemma_owned_inside(m);
    assert(t.levels[index].dir_offset == m.file_len);
    assert forall|i: int, j: int| 0 <= i < j < t.levels.len() implies (#[trigger] t.levels[i]).dir_offset != (
    #[trigger] t.levels[j]).dir_offset by {
        if i != index && j != index {
            let ii = level_before_add(index, i);
            let jj = level_before_add(index, j);
            assert(m.levels[ii].dir_offset != m.levels[jj].dir_offset);
        } else {
            let k = if i == index {
                j
            } else {
                i
            };
            let kk = level_before_add(index, k);
            assert(owned(m.levels[kk], d, m.levels[kk].dir_offset as int));
        }
    }
}

#[verifier::spinoff_prover]
#[verifier::rlimit(40)]
proof fn lemma_add_disjoint(file: Seq<u8>, m: WriterModel, index: int, fresh: LevelLayout, i: int, j: int, p: int)
    requires
        add_ok(file, m, index, fresh),
        0 <= i < added_model(m, index, fresh).levels.len(),
        0 <= j < added_model(m, index, fresh).levels.len(),
        i != j,
        owned(added_model(m, index, fresh).levels[i], m.dir_size(), p),
    ensures
        !owned(added_model(m, index, fresh).levels[j], m.dir_size(), p),
{
    let t = added_model(m, index, fresh);
    let d = m.dir_size();
    lemma_add_new_level(file, m, index, fresh);
    lemma_owned_inside(m);
    if i != index && j != index {
        assert(t.levels[i] == m.levels[level_before_add(index, i)]);
        assert(t.levels[j] == m.levels[level_before_add(index, j)]);
        assert(owned(m.levels[level_before_add(index, i)], d, p));
    } else if i == index {
        assert(t.levels[j] == m.levels[level_before_add(index, j)]);
        if owned(t.levels[j], d, p) {
            assert(owned(m.levels[level_before_add(index, j)], d, p));
        }
    } else {
        assert(t.levels[i] == m.levels[level_before_add(index, i)]);
        assert(owned(m.levels[level_before_add(index, i)], d, p));
    }
}

#[verifier::spinoff_prover]
proof fn lemma_add_separated(file: Seq<u8>, m: WriterModel, index: int, fresh: LevelLayout)
    requires
        add_ok(file, m, index, fresh),
    ensures
        separated(added_model(m, index, fresh)),
{
    let t = added_model(m, index, fresh);
    let d = m.dir_size();
    lemma_add_new_level(file, m, index, fresh);
    lemma_owned_inside(m);
    assert(t.dir_size() == d);
    assert forall|i: int, p: int| 0 <= i < t.levels.len() && #[trigger] owned(t.levels[i], t.dir_size(), p) implies 16 <= p by {
        if i != index {
            assert(t.levels[i] == m.levels[level_before_add(index, i)]);
            assert(owned(m.levels[level_before_add(index, i)], d, p));
        } else {
            lemma_wf_basics_pub(m);
            lemma_wf_level_pub(m, 0);
        }
    }
    assert forall|i: int, j: int, p: int|
        0 <= i < t.levels.len() && 0 <= j < t.levels.len() && i != j && #[trigger] owned(t.levels[i], t.dir_size(), p)
            implies !#[trigger] owned(t.levels[j], t.dir_size(), p) by {
        lemma_add_disjoint(file, m, index, fresh, i, j, p);
    }
    assert forall|i: int| 0 <= i < t.levels.len() implies regions_apart(#[trigger] t.levels[i], t.dir_size()) by {
        if i != index {
            assert(t.levels[i] == m.levels[level_before_add(index, i)]);
            assert(regions_apart(m.levels[level_before_add(index, i)], d));
        }
    }
}

/// Adding a level keeps a file whole: applied to a file that holds what the
/// writer has written, the writes of `add_level` leave a file that holds
/// every level, the new one included, with their bytes still apart.
#[verifier::spinoff_prover]
pub proof fn lemma_add_realizes(file: Seq<u8>, m: WriterModel, index: int, fresh: LevelLayout)
    requires
        add_ok(file, m, index, fresh),
    ensures
        realizes(apply_ops(file, add_level_ops(m, index, fresh)), added_model(m, index, fresh)),
        separated(added_model(m, index, fresh)),
{
    lemma_add_ops_file(file, m, index, fresh);
    lemma_add_header(file, m, index, fresh);
    lemma_add_contents(file, m, index, fresh);
    lemma_add_distinct(file, m, index, fresh);
    lemma_add_separated(file, m, index, fresh);
}

/// Appending keeps a file whole: bytes written past the end of a file that
/// holds what the writer has written leave every directory and array in
/// place, so the file still holds the writer's levels.
#[verifier::spinoff_prover]
pub proof fn lemma_append_keeps_levels(file: Seq<u8>, m: WriterModel, bytes: Seq<u8>)
    requires
        m.wf(),
        realizes(file, m),
        m.file_len + bytes.len() <= u64::MAX,
    ensures
        realizes(file + bytes, WriterModel { file_len: (m.file_len + bytes.len()) as u64, ..m }),
{
    let t = WriterModel { file_len: (m.file_len + bytes.len()) as u64, ..m };
    let f = file + bytes;
    lemma_wf_basics_pub(m);
    lemma_wf_level_pub(m, 0);
    assert(f.subrange(0, 16) =~= file.subrange(0, 16));
    assert forall|i: int| 0 <= i < t.levels.len() implies f.subrange(
        (#[trigger] t.levels[i]).dir_offset as int,
        t.levels[i].dir_offset + t.dir_size(),
    ) == spec_encode_directory(t.levels[i], next_dir(t.levels, i), t.codec, t.color_model, t.channels, t.ycbcr_subsampling) by {
        lemma_wf_level_pub(m, i);
        let x = m.levels[i].dir_offset as int;
        assert(f.subrange(x, x + m.dir_size()) =~= file.subrange(x, x + m.dir_size()));
    }
    assert forall|i: int| 0 <= i < t.levels.len() implies level_in_file(#[trigger] t.levels[i], f) by {
        let l = m.levels[i];
        assert(level_in_file(l, file));
        if l.offsets.len() > 1 {
            let x = l.offsets_base as int;
            assert(f.subrange(x, x + 8 * l.offsets.len()) =~= file.subrange(x, x + 8 * l.offsets.len()));
        }
        if l.counts.len() > 2 {
            let x = l.counts_base as int;
            assert(f.subrange(x, x + 4 * l.counts.len()) =~= file.subrange(x, x + 4 * l.counts.len()));
        }
    }
}

/// Adding a level is safe to stop at any write: after each prefix of the
/// writes of `add_level`, the file holds either the levels as they were (the
/// new level only appended so far) or all of them (the pointer switched by
/// the last write).
#[verifier::spinoff_prover]
pub proof fn lemma_add_every_prefix(file: Seq<u8>, m: WriterModel, index: int, fresh: LevelLayout, k: int)
    requires
        add_ok(file, m, index, fresh),
        0 <= k <= 2,
    ensures
        k < 2 ==> realizes(
            apply_ops(file, add_level_ops(m, index, fresh).take(k)),
            WriterModel { file_len: apply_ops(file, add_level_ops(m, index, fresh).take(k)).len() as u64, ..m },
        ),
        k == 2 ==> realizes(apply_ops(file, add_level_ops(m, index, fresh).take(k)), added_model(m, index, fresh)),
{
    let ops = add_level_ops(m, index, fresh);
    lemma_add_ops_file(file, m, index, fresh);
    reveal_with_fuel(apply_ops, 2);
    if k == 0 {
        assert(ops.take(0) =~= Seq::<OpModel>::empty());
        assert(WriterModel { file_len: file.len() as u64, ..m } == m);
    } else if k == 1 {
        assert(ops.take(1) =~= seq![ops[0]]);
        assert(seq![ops[0]].drop_last() =~= Seq::<OpModel>::empty());
        lemma_write_append(file, ops[0].bytes);
        lemma_append_keeps_levels(file, m, ops[0].bytes);
    } else {
        assert(ops.take(2) =~= ops);
        lemma_add_realizes(file, m, index, fresh);
    }
}

/// A tile write keeps the file whole after each of its writes: with only
/// the payload appended the file holds the levels as they were; once the
/// byte count is patched too, it holds the tile at its old offset with its
/// new length; with all three writes it holds the new tile.
#[verifier::spinoff_prover]
pub proof fn lemma_tile_prefixes(file: Seq<u8>, m: WriterModel, level: int, coord: (u64, u64), bytes: Seq<u8>, k: int)
    requires
        tile_write_ok(file, m, level, coord, bytes),
        0 <= k <= 3,
    ensures
        k < 2 ==> realizes(
            apply_ops(file, tile_ops(m, level, coord, bytes).take(k)),
            WriterModel { file_len: apply_ops(file, tile_ops(m, level, coord, bytes).take(k)).len() as u64, ..m },
        ),
        k == 2 ==> realizes(
            apply_ops(file, tile_ops(m, level, coord, bytes).take(k)),
            tile_model_at(
                m,
                level,
                coord,
                bytes.len() as int,
                m.levels[level].offsets[tile_index(m.levels[level], coord)],
            ),
        ),
        k == 3 ==> realizes(
            apply_ops(file, tile_ops(m, level, coord, bytes).take(k)),
            tile_model(m, level, coord, bytes.len() as int),
        ),
{
    let ops = tile_ops(m, level, coord, bytes);
    reveal_with_fuel(apply_ops, 2);
    if k == 0 {
        assert(ops.take(0) =~= Seq::<OpModel>::empty());
        assert(WriterModel { file_len: file.len() as u64, ..m } == m);
    } else if k == 1 {
        assert(ops.take(1) =~= seq![ops[0]]);
        assert(seq![ops[0]].drop_last() =~= Seq::<OpModel>::empty());
        lemma_write_append(file, bytes);
        lemma_append_keeps_levels(file, m, bytes);
    } else if k == 2 {
        lemma_tile_mid_realizes(file, m, level, coord, bytes);
    } else {
        assert(ops.take(3) =~= ops);
        lemma_tile_realizes(file, m, level, coord, bytes);
    }
}
} // verus!
