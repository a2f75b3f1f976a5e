//! A file kept whole across a writer's whole life: every operation of the
//! writer, its batch applied to a file that holds what the writer has
//! written, leaves a file that holds what the writer holds afterwards, and
//! leaves the payload of every tile it keeps where it was.
use vstd::prelude::*;

use crate::error::Error;
use crate::file_image::{apply_ops, lemma_apply_ops_concat, lemma_slot_u32, lemma_slot_u64, lemma_write_inside, write_at};
use crate::format::{lemma_div_ceil, spec_tile_grid, u32_bytes, u64_bytes};
use crate::level_edits::{added_model, lemma_add_realizes, lemma_remove_realizes};
use crate::readback::{level_in_file, realizes};
use crate::resizing::lemma_resize_realizes;
use crate::writeback::{
    lemma_init_realizes, lemma_init_separated_pub, lemma_patch_places, lemma_tile_ops_file, lemma_tile_realizes, owned,
    separated,
};
use crate::writer::{
    add_level_ops, add_level_outcome, align8, appended_level, dims_encodable, fresh_level, init_ops, initialized_model,
    lemma_wf_basics_pub, lemma_wf_init_model, lemma_wf_level_pub, level_spec_valid, link_to, moved_level, next_dir,
    put_tile_outcome, remove_level_outcome, resize_ops, resized_level, set_dimensions_outcome, tile_index, tile_model,
    tile_ops, tile_target_ok, zeroed, LevelLayout, OpModel, WriteBatch, WriterModel,
};

verus! {

/// `file` holds what writer `m` has written: nothing before the writer's
/// first write; afterwards the file that `realizes` describes, with the
/// bytes of different levels apart.
pub open spec fn holds_writes(file: Seq<u8>, m: WriterModel) -> bool {
    if m.initialized {
        realizes(file, m) && separated(m)
    } else {
        file.len() == 0
    }
}

/// A batch without writes leaves the file as it is.
proof fn lemma_no_ops(file: Seq<u8>, b: WriteBatch)
    requires
        b@.len() == 0,
    ensures
        apply_ops(file, b@) == file,
{
}

/// The first write of a writer: its header and directories, then a tile.
#[verifier::spinoff_prover]
#[verifier::rlimit(40)]
proof fn lemma_first_tile_batch(m: WriterModel, level: int, coord: (u64, u64), bytes: Seq<u8>)
    requires
        m.wf(),
        !m.initialized,
        m.levels.len() <= usize::MAX,
        tile_target_ok(m, level, coord, bytes.len() as int),
        dims_encodable(m.levels),
        m.file_len + bytes.len() <= u64::MAX,
    ensures
        realizes(
            apply_ops(Seq::empty(), init_ops(m) + tile_ops(m, level, coord, bytes)),
            tile_model(m, level, coord, bytes.len() as int),
        ),
        separated(tile_model(m, level, coord, bytes.len() as int)),
{
    let ts = tile_ops(m, level, coord, bytes);
    let mi = initialized_model(m);
    lemma_init_realizes(m);
    lemma_init_separated_pub(m);
    lemma_wf_init_model(m);
    lemma_apply_ops_concat(Seq::empty(), init_ops(m), ts);
    assert(tile_ops(mi, level, coord, bytes) == ts);
    assert(tile_model(mi, level, coord, bytes.len() as int) == tile_model(m, level, coord, bytes.len() as int));
    lemma_tile_realizes(apply_ops(Seq::empty(), init_ops(m)), mi, level, coord, bytes);
}

/// The payload of a tile write lands where the tile records it: at the end
/// of the file as it was.
#[verifier::spinoff_prover]
proof fn lemma_payload_in_place(file: Seq<u8>, m: WriterModel, level: int, coord: (u64, u64), bytes: Seq<u8>)
    requires
        m.wf(),
        separated(m),
        file.len() == m.file_len,
        tile_target_ok(m, level, coord, bytes.len() as int),
        m.file_len + bytes.len() <= u64::MAX,
    ensures
        apply_ops(file, tile_ops(m, level, coord, bytes)).subrange(m.file_len as int, m.file_len + bytes.len())
            == bytes,
{
    let l = m.levels[level];
    let k = tile_index(l, coord);
    let p1 = l.offsets_base + 8 * k;
    let p2 = l.counts_base + 4 * k;
    let x = m.file_len as int;
    let y = x + bytes.len();
    lemma_tile_ops_file(file, m, level, coord, bytes);
    lemma_patch_places(m, level, coord, bytes.len() as int);
    lemma_slot_u64(m.file_len);
    lemma_slot_u32(bytes.len() as u32);
    let f1 = file + bytes;
    let f2 = write_at(f1, p1, u64_bytes(m.file_len));
    lemma_write_inside(f1, p1, u64_bytes(m.file_len), x, y);
    lemma_write_inside(f2, p2, u32_bytes(bytes.len() as u32), x, y);
    assert(f1.subrange(x, y) =~= bytes);
}

/// Writing a tile keeps the file whole: applied to a file that holds what
/// the writer has written, the batch of `put_tile_at_level` (the first
/// write's header and directories included) leaves a file that holds what
/// the writer holds afterwards, with the payload at the offset the tile now
/// records, the end of the file as it was; a refused write leaves the
/// writer as it was.
#[verifier::spinoff_prover]
pub proof fn lemma_put_tile_keeps_writes(
    file: Seq<u8>,
    m: WriterModel,
    level: int,
    coord: (u64, u64),
    bytes: Seq<u8>,
    r: Result<WriteBatch, Error>,
    after: WriterModel,
)
    requires
        m.wf(),
        m.levels.len() <= usize::MAX,
        holds_writes(file, m),
        put_tile_outcome(m, level, coord, bytes, r, after),
    ensures
        r matches Ok(b) ==> holds_writes(apply_ops(file, b@), after),
        r matches Ok(b) ==> apply_ops(file, b@).subrange(m.file_len as int, m.file_len + bytes.len()) == bytes,
        r is Err ==> after == m,
{
    if let Ok(b) = r {
        let ts = tile_ops(m, level, coord, bytes);
        if m.initialized {
            assert(b@ =~= ts);
            lemma_tile_realizes(file, m, level, coord, bytes);
            lemma_payload_in_place(file, m, level, coord, bytes);
        } else {
            assert(file =~= Seq::<u8>::empty());
            lemma_first_tile_batch(m, level, coord, bytes);
            let mi = initialized_model(m);
            let f0 = apply_ops(Seq::empty(), init_ops(m));
            lemma_init_realizes(m);
            lemma_init_separated_pub(m);
            lemma_wf_init_model(m);
            lemma_apply_ops_concat(Seq::empty(), init_ops(m), ts);
            assert(tile_ops(mi, level, coord, bytes) == ts);
            lemma_payload_in_place(f0, mi, level, coord, bytes);
        }
    }
}

/// Position `p` holds a payload byte of tile `k` of level `l`.
pub open spec fn in_tile(l: LevelLayout, k: int, p: int) -> bool {
    l.offsets[k] <= p < l.offsets[k] + l.counts[k]
}

/// The payload bytes of every tile lie past the header and apart from the
/// bytes that every level owns, its directory and arrays.
pub open spec fn payloads_apart(m: WriterModel) -> bool {
    &&& forall|i: int, k: int, p: int|
        0 <= i < m.levels.len() && 0 <= k < m.levels[i].offsets.len() && #[trigger] in_tile(m.levels[i], k, p)
            ==> 16 <= p
    &&& forall|i: int, k: int, j: int, p: int|
        0 <= i < m.levels.len() && 0 <= k < m.levels[i].offsets.len() && 0 <= j < m.levels.len() && #[trigger] in_tile(
            m.levels[i],
            k,
            p,
        ) ==> !#[trigger] owned(m.levels[j], m.dir_size(), p)
}

/// A writer that has written nothing holds no payload.
pub proof fn lemma_unwritten_payloads_apart(m: WriterModel)
    requires
        m.wf(),
        !m.initialized,
    ensures
        payloads_apart(m),
{
    lemma_wf_basics_pub(m);
    assert forall|i: int, k: int, p: int|
        0 <= i < m.levels.len() && 0 <= k < m.levels[i].offsets.len() implies !#[trigger] in_tile(m.levels[i], k, p) by {
        assert(zeroed(m.levels[i]));
        assert(m.levels[i].offsets[k] == 0);
        if k < m.levels[i].counts.len() {
            assert(m.levels[i].counts[k] == 0);
        }
        lemma_wf_level_pub(m, i);
    }
}

/// The bytes of a written level lie before the end of the file.
proof fn lemma_owned_before_end(m: WriterModel, j: int, p: int)
    requires
        m.wf(),
        0 <= j < m.levels.len(),
        owned(m.levels[j], m.dir_size(), p),
    ensures
        p < m.file_len,
{
    lemma_wf_level_pub(m, j);
}

/// Writing a tile keeps every payload apart from the writer's own bytes.
#[verifier::spinoff_prover]
proof fn lemma_tile_payloads_apart(m: WriterModel, level: int, coord: (u64, u64), len: int)
    requires
        m.wf(),
        payloads_apart(m),
        tile_target_ok(m, level, coord, len),
        0 <= len,
    ensures
        payloads_apart(tile_model(m, level, coord, len)),
{
    let t = tile_model(m, level, coord, len);
    let kk = tile_index(m.levels[level], coord);
    lemma_patch_places(m, level, coord, len);
    assert forall|i: int, p: int| 0 <= i < m.levels.len() implies #[trigger] owned(t.levels[i], t.dir_size(), p)
        == owned(m.levels[i], m.dir_size(), p) by {
        assert(t.levels[i].offsets.len() == m.levels[i].offsets.len());
        assert(t.levels[i].counts.len() == m.levels[i].counts.len());
    }
    assert forall|i: int, k: int, p: int|
        0 <= i < t.levels.len() && 0 <= k < t.levels[i].offsets.len() && #[trigger] in_tile(t.levels[i], k, p)
            implies (16 <= p && forall|j: int| 0 <= j < t.levels.len() ==> !#[trigger] owned(t.levels[j], t.dir_size(), p)) by {
        if i == level && k == kk {
            assert(t.levels[i].offsets[k] == m.file_len);
            assert forall|j: int| 0 <= j < t.levels.len() implies !#[trigger] owned(t.levels[j], t.dir_size(), p) by {
                if owned(m.levels[j], m.dir_size(), p) {
                    lemma_owned_before_end(m, j, p);
                }
            }
            lemma_wf_level_pub(m, 0);
        } else {
            assert(t.levels[i].offsets[k] == m.levels[i].offsets[k]);
            assert(t.levels[i].counts[k] == m.levels[i].counts[k]);
            assert(in_tile(m.levels[i], k, p));
            assert forall|j: int| 0 <= j < t.levels.len() implies !#[trigger] owned(t.levels[j], t.dir_size(), p) by {
                assert(!owned(m.levels[j], m.dir_size(), p));
            }
        }
    }
}

/// The writes of a tile leave the payload of every other tile in place.
#[verifier::spinoff_prover]
proof fn lemma_tile_keeps_payload(file: Seq<u8>, m: WriterModel, level: int, coord: (u64, u64), bytes: Seq<u8>, i: int, k: int)
    requires
        m.wf(),
        realizes(file, m),
        separated(m),
        payloads_apart(m),
        tile_target_ok(m, level, coord, bytes.len() as int),
        m.file_len + bytes.len() <= u64::MAX,
        0 <= i < m.levels.len(),
        0 <= k < m.levels[i].offsets.len(),
        m.levels[i].counts[k] > 0,
    ensures
        apply_ops(file, tile_ops(m, level, coord, bytes)).subrange(
            m.levels[i].offsets[k] as int,
            m.levels[i].offsets[k] + m.levels[i].counts[k],
        ) == file.subrange(m.levels[i].offsets[k] as int, m.levels[i].offsets[k] + m.levels[i].counts[k]),
{
    let l = m.levels[level];
    let kk = tile_index(l, coord);
    let p1 = l.offsets_base + 8 * kk;
    let p2 = l.counts_base + 4 * kk;
    let x = m.levels[i].offsets[k] as int;
    let y = x + m.levels[i].counts[k];
    let d = m.dir_size();
    lemma_tile_ops_file(file, m, level, coord, bytes);
    lemma_patch_places(m, level, coord, bytes.len() as int);
    lemma_slot_u64(m.file_len);
    lemma_slot_u32(bytes.len() as u32);
    assert(level_in_file(m.levels[i], file));
    assert(y <= file.len());
    assert(y <= p1 || p1 + 8 <= x) by {
        if !(y <= p1 || p1 + 8 <= x) {
            let q = if x < p1 { p1 } else { x };
            assert(owned(l, d, q));
            assert(in_tile(m.levels[i], k, q));
        }
    }
    assert(y <= p2 || p2 + 4 <= x) by {
        if !(y <= p2 || p2 + 4 <= x) {
            let q = if x < p2 { p2 } else { x };
            assert(owned(l, d, q));
            assert(in_tile(m.levels[i], k, q));
        }
    }
    let f1 = file + bytes;
    let f2 = write_at(f1, p1, u64_bytes(m.file_len));
    lemma_write_inside(f1, p1, u64_bytes(m.file_len), x, y);
    lemma_write_inside(f2, p2, u32_bytes(bytes.len() as u32), x, y);
    assert(f1.subrange(x, y) =~= file.subrange(x, y));
}

/// Writing a tile leaves the payload of every other tile where it was:
/// applied to a file that holds what the writer has written, with every
/// payload apart from the writer's own bytes, the batch of
/// `put_tile_at_level` changes no byte of another tile's payload, and
/// payloads stay apart afterwards.
#[verifier::spinoff_prover]
pub proof fn lemma_put_tile_keeps_payloads(
    file: Seq<u8>,
    m: WriterModel,
    level: int,
    coord: (u64, u64),
    bytes: Seq<u8>,
    r: Result<WriteBatch, Error>,
    after: WriterModel,
)
    requires
        m.wf(),
        m.levels.len() <= usize::MAX,
        holds_writes(file, m),
        payloads_apart(m),
        put_tile_outcome(m, level, coord, bytes, r, after),
    ensures
        r matches Ok(b) ==> payloads_apart(after),
        r matches Ok(b) ==> forall|i: int, k: int|
            0 <= i < m.levels.len() && 0 <= k < m.levels[i].offsets.len() && !(i == level && k == tile_index(
                m.levels[level],
                coord,
            )) ==> #[trigger] apply_ops(file, b@).subrange(
                m.levels[i].offsets[k] as int,
                m.levels[i].offsets[k] + m.levels[i].counts[k],
            ) == file.subrange(m.levels[i].offsets[k] as int, m.levels[i].offsets[k] + m.levels[i].counts[k]),
{
    if let Ok(b) = r {
        lemma_tile_payloads_apart(m, level, coord, bytes.len() as int);
        let ts = tile_ops(m, level, coord, bytes);
        assert forall|i: int, k: int|
            0 <= i < m.levels.len() && 0 <= k < m.levels[i].offsets.len() && !(i == level && k == tile_index(
                m.levels[level],
                coord,
            )) implies #[trigger] apply_ops(file, b@).subrange(
                m.levels[i].offsets[k] as int,
                m.levels[i].offsets[k] + m.levels[i].counts[k],
            ) == file.subrange(m.levels[i].offsets[k] as int, m.levels[i].offsets[k] + m.levels[i].counts[k]) by {
            let x = m.levels[i].offsets[k] as int;
            lemma_wf_level_pub(m, i);
            if m.levels[i].counts[k] == 0 {
                lemma_put_tile_keeps_writes(file, m, level, coord, bytes, r, after);
                if m.initialized {
                    assert(level_in_file(m.levels[i], file));
                    assert(x <= file.len());
                } else {
                    lemma_wf_basics_pub(m);
                    assert(zeroed(m.levels[i]));
                    assert(x == 0);
                }
                assert(apply_ops(file, b@).len() >= file.len());
                assert(apply_ops(file, b@).subrange(x, x) =~= file.subrange(x, x));
            } else if m.initialized {
                assert(b@ =~= ts);
                lemma_tile_keeps_payload(file, m, level, coord, bytes, i, k);
            } else {
                lemma_wf_basics_pub(m);
                assert(zeroed(m.levels[i]));
            }
        }
    }
}

/// Position `p` lies outside the `n` bytes written at `w`.
spec fn missed(w: int, n: int, p: int) -> bool {
    !(w <= p < w + n)
}

/// A write that touches no byte of `x..y` leaves those bytes.
proof fn lemma_write_misses(f: Seq<u8>, w: int, b: Seq<u8>, x: int, y: int)
    requires
        0 <= w,
        0 <= x <= y <= f.len(),
        forall|p: int| x <= p < y ==> #[trigger] missed(w, b.len() as int, p),
    ensures
        write_at(f, w, b).subrange(x, y) == f.subrange(x, y),
{
    assert forall|q: int| 0 <= q < y - x implies write_at(f, w, b).subrange(x, y)[q] == f.subrange(x, y)[q] by {
        assert(missed(w, b.len() as int, x + q));
    }
    assert(write_at(f, w, b).subrange(x, y) =~= f.subrange(x, y));
}

/// The link that leads to position `index` of the chain lies in the
/// header or at the end of the directory before it.
proof fn lemma_link_owned(m: WriterModel, index: int)
    requires
        m.wf(),
        0 <= index <= m.levels.len(),
    ensures
        index == 0 ==> link_to(m, index) == 8,
        index > 0 ==> forall|p: int|
            link_to(m, index) <= p < link_to(m, index) + 8 ==> #[trigger] owned(m.levels[index - 1], m.dir_size(), p),
{
    if index > 0 {
        lemma_wf_level_pub(m, index - 1);
        assert(m.dir_size() >= 236);
    }
}

/// Removing a level leaves the payload of every tile that remains where it
/// was: applied to a file that holds what the writer has written, with
/// every payload apart from the writer's own bytes, the batch of
/// `remove_level` changes no byte of a remaining tile's payload, and
/// payloads stay apart afterwards.
#[verifier::spinoff_prover]
pub proof fn lemma_remove_level_keeps_payloads(
    file: Seq<u8>,
    m: WriterModel,
    index: int,
    r: Result<WriteBatch, Error>,
    after: WriterModel,
)
    requires
        m.wf(),
        after.wf(),
        holds_writes(file, m),
        payloads_apart(m),
        remove_level_outcome(m, index, r, after),
    ensures
        r matches Ok(b) ==> payloads_apart(after),
        r matches Ok(b) ==> forall|i: int, k: int|
            0 <= i < after.levels.len() && 0 <= k < after.levels[i].offsets.len() ==> #[trigger] apply_ops(
                file,
                b@,
            ).subrange(
                after.levels[i].offsets[k] as int,
                after.levels[i].offsets[k] + after.levels[i].counts[k],
            ) == file.subrange(after.levels[i].offsets[k] as int, after.levels[i].offsets[k] + after.levels[i].counts[k]),
{
    if let Ok(b) = r {
        if !m.initialized {
            lemma_unwritten_payloads_apart(after);
            lemma_wf_basics_pub(after);
            assert forall|i: int, k: int|
                0 <= i < after.levels.len() && 0 <= k < after.levels[i].offsets.len() implies #[trigger] apply_ops(
                    file,
                    b@,
                ).subrange(
                    after.levels[i].offsets[k] as int,
                    after.levels[i].offsets[k] + after.levels[i].counts[k],
                ) == file.subrange(after.levels[i].offsets[k] as int, after.levels[i].offsets[k] + after.levels[i].counts[k]) by {
                assert(zeroed(after.levels[i]));
                lemma_wf_level_pub(after, i);
                lemma_no_ops(file, b);
            }
        } else {
            let d = m.dir_size();
            let w = link_to(m, index) as int;
            let v = u64_bytes(next_dir(m.levels, index));
            lemma_slot_u64(next_dir(m.levels, index));
            lemma_link_owned(m, index);
            assert(b@ =~= seq![OpModel { offset: w as u64, bytes: v }]);
            reveal_with_fuel(apply_ops, 2);
            assert(seq![OpModel { offset: w as u64, bytes: v }].drop_last() =~= Seq::<OpModel>::empty());
            assert forall|i: int| 0 <= i < after.levels.len() implies #[trigger] after.levels[i] == m.levels[if i < index {
                i
            } else {
                i + 1
            }] by {}
            assert(payloads_apart(after)) by {
                assert forall|i: int, k: int, j: int, p: int|
                    0 <= i < after.levels.len() && 0 <= k < after.levels[i].offsets.len() && 0 <= j
                        < after.levels.len() && #[trigger] in_tile(after.levels[i], k, p) implies !#[trigger] owned(
                    after.levels[j],
                    after.dir_size(),
                    p,
                ) by {
                    let ii = if i < index { i } else { i + 1 };
                    let jj = if j < index { j } else { j + 1 };
                    assert(in_tile(m.levels[ii], k, p));
                    assert(!owned(m.levels[jj], d, p));
                }
                assert forall|i: int, k: int, p: int|
                    0 <= i < after.levels.len() && 0 <= k < after.levels[i].offsets.len() && #[trigger] in_tile(
                        after.levels[i],
                        k,
                        p,
                    ) implies 16 <= p by {
                    let ii = if i < index { i } else { i + 1 };
                    assert(in_tile(m.levels[ii], k, p));
                }
            }
            assert forall|i: int, k: int|
                0 <= i < after.levels.len() && 0 <= k < after.levels[i].offsets.len() implies #[trigger] apply_ops(
                    file,
                    b@,
                ).subrange(
                    after.levels[i].offsets[k] as int,
                    after.levels[i].offsets[k] + after.levels[i].counts[k],
                ) == file.subrange(after.levels[i].offsets[k] as int, after.levels[i].offsets[k] + after.levels[i].counts[k]) by {
                let ii = if i < index { i } else { i + 1 };
                let l = m.levels[ii];
                let x = l.offsets[k] as int;
                let y = x + l.counts[k];
                assert(level_in_file(l, file));
                assert forall|p: int| x <= p < y implies #[trigger] missed(w, v.len() as int, p) by {
                    assert(in_tile(l, k, p));
                    if index > 0 && w <= p < w + 8 {
                        assert(owned(m.levels[index - 1], d, p));
                    }
                }
                lemma_write_misses(file, w, v, x, y);
            }
        }
    }
}

/// Adding a level leaves the payload of every tile where it was: applied
/// to a file that holds what the writer has written, with every payload
/// apart from the writer's own bytes, the batch of `add_level` changes no
/// byte of a tile's payload, and payloads stay apart afterwards.
#[verifier::spinoff_prover]
#[verifier::rlimit(40)]
pub proof fn lemma_add_level_keeps_payloads(
    file: Seq<u8>,
    m: WriterModel,
    index: int,
    spec: ((u64, u64), (u32, u32)),
    r: Result<WriteBatch, Error>,
    after: WriterModel,
)
    requires
        m.wf(),
        after.wf(),
        m.levels.len() < usize::MAX,
        holds_writes(file, m),
        payloads_apart(m),
        add_level_outcome(m, index, spec, r, after),
    ensures
        r matches Ok(b) ==> payloads_apart(after),
        r matches Ok(b) ==> forall|i: int, k: int|
            0 <= i < m.levels.len() && 0 <= k < m.levels[i].offsets.len() ==> #[trigger] apply_ops(file, b@).subrange(
                m.levels[i].offsets[k] as int,
                m.levels[i].offsets[k] + m.levels[i].counts[k],
            ) == file.subrange(m.levels[i].offsets[k] as int, m.levels[i].offsets[k] + m.levels[i].counts[k]),
{
    if let Ok(b) = r {
        if !m.initialized {
            lemma_unwritten_payloads_apart(after);
            lemma_wf_basics_pub(m);
            assert forall|i: int, k: int|
                0 <= i < m.levels.len() && 0 <= k < m.levels[i].offsets.len() implies #[trigger] apply_ops(file, b@).subrange(
                    m.levels[i].offsets[k] as int,
                    m.levels[i].offsets[k] + m.levels[i].counts[k],
                ) == file.subrange(m.levels[i].offsets[k] as int, m.levels[i].offsets[k] + m.levels[i].counts[k]) by {
                assert(zeroed(m.levels[i]));
                lemma_wf_level_pub(m, i);
                lemma_no_ops(file, b);
            }
        } else {
            let d = m.dir_size();
            let fresh = fresh_level(spec.0, spec.1);
            let nl = appended_level(fresh, d, m.file_len as int);
            let ops = add_level_ops(m, index, fresh);
            let w = link_to(m, index) as int;
            let v = u64_bytes(m.file_len);
            lemma_slot_u64(m.file_len);
            lemma_link_owned(m, index);
            lemma_wf_basics_pub(m);
            lemma_wf_level_pub(m, 0);
            assert(d >= 236);
            assert(after.levels == m.levels.insert(index, nl));
            reveal_with_fuel(apply_ops, 3);
            assert(ops.drop_last() =~= seq![ops[0]]);
            assert(seq![ops[0]].drop_last() =~= Seq::<OpModel>::empty());
            let f1 = write_at(file, m.file_len as int, ops[0].bytes);
            assert(align8(m.file_len + d) >= m.file_len);
            assert forall|p: int| #[trigger] owned(nl, d, p) implies m.file_len <= p by {}
            assert(payloads_apart(after)) by {
                assert forall|i: int, k: int, j: int, p: int|
                    0 <= i < after.levels.len() && 0 <= k < after.levels[i].offsets.len() && 0 <= j
                        < after.levels.len() && #[trigger] in_tile(after.levels[i], k, p) implies !#[trigger] owned(
                    after.levels[j],
                    after.dir_size(),
                    p,
                ) by {
                    if i == index {
                        assert(nl.counts[k] == 0);
                    } else {
                        let ii = if i < index { i } else { i - 1 };
                        assert(in_tile(m.levels[ii], k, p));
                        assert(level_in_file(m.levels[ii], file));
                        assert(p < m.file_len);
                        if j != index {
                            let jj = if j < index { j } else { j - 1 };
                            assert(!owned(m.levels[jj], d, p));
                        }
                    }
                }
                assert forall|i: int, k: int, p: int|
                    0 <= i < after.levels.len() && 0 <= k < after.levels[i].offsets.len() && #[trigger] in_tile(
                        after.levels[i],
                        k,
                        p,
                    ) implies 16 <= p by {
                    if i == index {
                        assert(nl.counts[k] == 0);
                    } else {
                        let ii = if i < index { i } else { i - 1 };
                        assert(in_tile(m.levels[ii], k, p));
                    }
                }
            }
            assert forall|i: int, k: int|
                0 <= i < m.levels.len() && 0 <= k < m.levels[i].offsets.len() implies #[trigger] apply_ops(file, b@).subrange(
                    m.levels[i].offsets[k] as int,
                    m.levels[i].offsets[k] + m.levels[i].counts[k],
                ) == file.subrange(m.levels[i].offsets[k] as int, m.levels[i].offsets[k] + m.levels[i].counts[k]) by {
                let l = m.levels[i];
                let x = l.offsets[k] as int;
                let y = x + l.counts[k];
                assert(level_in_file(l, file));
                assert forall|p: int| x <= p < y implies #[trigger] missed(m.file_len as int, ops[0].bytes.len() as int, p) by {}
                lemma_write_misses(file, m.file_len as int, ops[0].bytes, x, y);
                assert forall|p: int| x <= p < y implies #[trigger] missed(w, v.len() as int, p) by {
                    assert(in_tile(l, k, p));
                    if index > 0 && w <= p < w + 8 {
                        assert(owned(m.levels[index - 1], d, p));
                    }
                }
                assert(f1.len() >= file.len());
                lemma_write_misses(f1, w, v, x, y);
            }
        }
    }
}

/// A tile of a resized level is a tile of the level before, or holds
/// nothing.
proof fn lemma_resized_tile(l: LevelLayout, dims: (u64, u64), file_len: int, i: int)
    requires
        l.wf(),
        level_spec_valid(dims, (l.tile_width, l.tile_height)),
        0 <= i < resized_level(l, dims, file_len).offsets.len(),
    ensures
        ({
            let r = resized_level(l, dims, file_len);
            ||| r.counts[i] == 0
            ||| exists|j: int| 0 <= j < l.offsets.len() && r.offsets[i] == l.offsets[j] && r.counts[i] == l.counts[j]
        }),
{
    let r = resized_level(l, dims, file_len);
    let g = spec_tile_grid(dims.0 as int, dims.1 as int, l.tile_width as int, l.tile_height as int);
    let across = g.0;
    let oa = l.tiles_across as int;
    let od = l.tiles_down as int;
    lemma_div_ceil(dims.0 as int, l.tile_width as int);
    if i / across < od && i % across < oa {
        let row = i / across;
        let col = i % across;
        let j = row * oa + col;
        assert(0 <= row && 0 <= col) by (nonlinear_arith)
            requires row == i / across, col == i % across, across > 0, 0 <= i;
        assert(j < oa * od) by (nonlinear_arith)
            requires j == row * oa + col, 0 <= row < od, 0 <= col < oa;
        assert(0 <= j) by (nonlinear_arith)
            requires j == row * oa + col, 0 <= row, 0 <= col, 0 <= oa;
        assert(r.offsets[i] == l.offsets[j]);
        assert(r.counts[i] == l.counts[j]);
    }
}

/// Resizing a level leaves the payload of every tile where it was: applied
/// to a file that holds what the writer has written, with every payload
/// apart from the writer's own bytes, the batch of `set_dimensions` changes
/// no byte of a tile's payload, the resized level keeps the tiles it keeps,
/// and payloads stay apart afterwards.
#[verifier::spinoff_prover]
#[verifier::rlimit(40)]
pub proof fn lemma_set_dimensions_keeps_payloads(
    file: Seq<u8>,
    m: WriterModel,
    level: int,
    dims: (u64, u64),
    r: Result<WriteBatch, Error>,
    after: WriterModel,
)
    requires
        m.wf(),
        after.wf(),
        holds_writes(file, m),
        payloads_apart(m),
        set_dimensions_outcome(m, level, dims, r, after),
    ensures
        r matches Ok(b) ==> payloads_apart(after),
        r matches Ok(b) ==> forall|i: int, k: int|
            0 <= i < m.levels.len() && 0 <= k < m.levels[i].offsets.len() ==> #[trigger] apply_ops(file, b@).subrange(
                m.levels[i].offsets[k] as int,
                m.levels[i].offsets[k] + m.levels[i].counts[k],
            ) == file.subrange(m.levels[i].offsets[k] as int, m.levels[i].offsets[k] + m.levels[i].counts[k]),
{
    if let Ok(b) = r {
        if !m.initialized {
            lemma_unwritten_payloads_apart(after);
            lemma_wf_basics_pub(m);
            assert forall|i: int, k: int|
                0 <= i < m.levels.len() && 0 <= k < m.levels[i].offsets.len() implies #[trigger] apply_ops(file, b@).subrange(
                    m.levels[i].offsets[k] as int,
                    m.levels[i].offsets[k] + m.levels[i].counts[k],
                ) == file.subrange(m.levels[i].offsets[k] as int, m.levels[i].offsets[k] + m.levels[i].counts[k]) by {
                assert(zeroed(m.levels[i]));
                lemma_wf_level_pub(m, i);
                lemma_no_ops(file, b);
            }
        } else {
            let d = m.dir_size();
            let ol = m.levels[level];
            let nl = moved_level(ol, dims, m.file_len as int);
            let ops = resize_ops(m, level, dims);
            let w = link_to(m, level) as int;
            let v = u64_bytes(nl.dir_offset);
            lemma_slot_u64(nl.dir_offset);
            lemma_link_owned(m, level);
            lemma_wf_basics_pub(m);
            lemma_wf_level_pub(m, 0);
            lemma_wf_level_pub(m, level);
            assert(d >= 236);
            assert(after.levels == m.levels.update(level, nl));
            reveal_with_fuel(apply_ops, 3);
            assert(ops.drop_last() =~= seq![ops[0]]);
            assert(seq![ops[0]].drop_last() =~= Seq::<OpModel>::empty());
            let f1 = write_at(file, m.file_len as int, ops[0].bytes);
            assert(align8(m.file_len as int) >= m.file_len);
            assert forall|p: int| #[trigger] owned(nl, d, p) implies m.file_len <= p by {}
            assert(payloads_apart(after)) by {
                assert forall|i: int, k: int, p: int|
                    0 <= i < after.levels.len() && 0 <= k < after.levels[i].offsets.len() && #[trigger] in_tile(
                        after.levels[i],
                        k,
                        p,
                    ) implies (16 <= p && p < m.file_len) by {
                    if i == level {
                        lemma_resized_tile(ol, dims, m.file_len as int, k);
                        if nl.counts[k] != 0 {
                            let j = choose|j: int|
                                0 <= j < ol.offsets.len() && nl.offsets[k] == ol.offsets[j] && nl.counts[k] == ol.counts[j];
                            assert(in_tile(ol, j, p));
                            assert(level_in_file(ol, file));
                        }
                    } else {
                        assert(in_tile(m.levels[i], k, p));
                        assert(level_in_file(m.levels[i], file));
                    }
                }
                assert forall|i: int, k: int, j: int, p: int|
                    0 <= i < after.levels.len() && 0 <= k < after.levels[i].offsets.len() && 0 <= j
                        < after.levels.len() && #[trigger] in_tile(after.levels[i], k, p) implies !#[trigger] owned(
                    after.levels[j],
                    after.dir_size(),
                    p,
                ) by {
                    assert(16 <= p && p < m.file_len);
                    if i == level {
                        lemma_resized_tile(ol, dims, m.file_len as int, k);
                        if nl.counts[k] != 0 {
                            let jj = choose|jj: int|
                                0 <= jj < ol.offsets.len() && nl.offsets[k] == ol.offsets[jj] && nl.counts[k] == ol.counts[jj];
                            assert(in_tile(ol, jj, p));
                            if j != level {
                                assert(!owned(m.levels[j], d, p));
                            }
                        }
                    } else {
                        assert(in_tile(m.levels[i], k, p));
                        if j != level {
                            assert(!owned(m.levels[j], d, p));
                        }
                    }
                }
            }
            assert forall|i: int, k: int|
                0 <= i < m.levels.len() && 0 <= k < m.levels[i].offsets.len() implies #[trigger] apply_ops(file, b@).subrange(
                    m.levels[i].offsets[k] as int,
                    m.levels[i].offsets[k] + m.levels[i].counts[k],
                ) == file.subrange(m.levels[i].offsets[k] as int, m.levels[i].offsets[k] + m.levels[i].counts[k]) by {
                let l = m.levels[i];
                let x = l.offsets[k] as int;
                let y = x + l.counts[k];
                assert(level_in_file(l, file));
                assert forall|p: int| x <= p < y implies #[trigger] missed(m.file_len as int, ops[0].bytes.len() as int, p) by {}
                lemma_write_misses(file, m.file_len as int, ops[0].bytes, x, y);
                assert forall|p: int| x <= p < y implies #[trigger] missed(w, v.len() as int, p) by {
                    assert(in_tile(l, k, p));
                    if level > 0 && w <= p < w + 8 {
                        assert(owned(m.levels[level - 1], d, p));
                    }
                }
                assert(f1.len() >= file.len());
                lemma_write_misses(f1, w, v, x, y);
            }
        }
    }
}

/// Adding a level keeps the file whole: applied to a file that holds what
/// the writer has written, the batch of `add_level` leaves a file that holds
/// what the writer holds afterwards; a refused addition leaves the writer as
/// it was.
#[verifier::spinoff_prover]
pub proof fn lemma_add_level_keeps_writes(
    file: Seq<u8>,
    m: WriterModel,
    index: int,
    spec: ((u64, u64), (u32, u32)),
    r: Result<WriteBatch, Error>,
    after: WriterModel,
)
    requires
        m.wf(),
        m.levels.len() < usize::MAX,
        holds_writes(file, m),
        add_level_outcome(m, index, spec, r, after),
    ensures
        r matches Ok(b) ==> holds_writes(apply_ops(file, b@), after),
        r is Err ==> after == m,
{
    if let Ok(b) = r {
        if m.initialized {
            let fresh = fresh_level(spec.0, spec.1);
            assert(after == added_model(m, index, fresh));
            lemma_add_realizes(file, m, index, fresh);
        } else {
            lemma_no_ops(file, b);
        }
    }
}

/// Removing a level keeps the file whole: applied to a file that holds what
/// the writer has written, the batch of `remove_level` leaves a file that
/// holds what the writer holds afterwards; a refused removal leaves the
/// writer as it was.
#[verifier::spinoff_prover]
pub proof fn lemma_remove_level_keeps_writes(
    file: Seq<u8>,
    m: WriterModel,
    index: int,
    r: Result<WriteBatch, Error>,
    after: WriterModel,
)
    requires
        m.wf(),
        holds_writes(file, m),
        remove_level_outcome(m, index, r, after),
    ensures
        r matches Ok(b) ==> holds_writes(apply_ops(file, b@), after),
        r is Err ==> after == m,
{
    if let Ok(b) = r {
        if m.initialized {
            lemma_remove_realizes(file, m, index);
        } else {
            lemma_no_ops(file, b);
        }
    }
}

/// Resizing a level keeps the file whole: applied to a file that holds what
/// the writer has written, the batch of `set_dimensions` leaves a file that
/// holds what the writer holds afterwards; a refused resize leaves the
/// writer as it was.
#[verifier::spinoff_prover]
pub proof fn lemma_set_dimensions_keeps_writes(
    file: Seq<u8>,
    m: WriterModel,
    level: int,
    dims: (u64, u64),
    r: Result<WriteBatch, Error>,
    after: WriterModel,
)
    requires
        m.wf(),
        holds_writes(file, m),
        set_dimensions_outcome(m, level, dims, r, after),
    ensures
        r matches Ok(b) ==> holds_writes(apply_ops(file, b@), after),
        r is Err ==> after == m,
{
    if let Ok(b) = r {
        if m.initialized {
            lemma_resize_realizes(file, m, level, dims);
        } else {
            lemma_no_ops(file, b);
        }
    }
}

} // verus!
