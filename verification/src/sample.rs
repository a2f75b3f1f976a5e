//! A small ZIF file, for examples and tests.
use vstd::prelude::*;

use crate::model::{Codec, ColorModel};
use crate::file_image::{apply_ops, lemma_apply_ops_concat, ops_addressable, write_at};
use crate::model::{Chunk, Zif};
use crate::readback::{knows_file, lemma_written_file_reads_back, read_levels, realizes};
use crate::reader::{byte_at, zif_model, ReadStatus, Reader};
use crate::writeback::{lemma_init_realizes, lemma_init_separated_pub, lemma_tile_realizes, separated};
use crate::writer::{
    initialized_model, lemma_wf_init_model, arrays_size, counts_prefix, dims_encodable, dirs_bytes, fresh_level,
    next_dir, fresh_levels, init_ops, layout_total, lemma_directory_len, level_spec_valid, offsets_prefix,
    pyramid_dims, requested_levels, same_shape, tile_model, tile_ops, zeros, LevelLayout, PyramidMode, WriteBatch,
    Writer, WriterModel, arrays_start, init_tail,
};

verus! {

fn write_bytes(file: &mut Vec<u8>, offset: usize, bytes: &Vec<u8>)
    requires
        offset + bytes@.len() <= usize::MAX,
    ensures
        final(file)@ == write_at(old(file)@, offset as int, bytes@),
{
    let end = offset + bytes.len();
    let ghost grown = if old(file)@.len() < end {
        old(file)@ + zeros(end - old(file)@.len())
    } else {
        old(file)@
    };
    if file.len() < end {
        let start = file.len();
        while file.len() < end
            invariant
                start == old(file)@.len(),
                start < end,
                start <= file@.len() <= end,
                file@ == old(file)@ + zeros(file@.len() - start),
            decreases end - file@.len(),
        {
            file.push(0);
            assert(file@ =~= old(file)@ + zeros(file@.len() - start));
        }
    }
    assert(file@ =~= grown);
    let mut j: usize = 0;
    while j < bytes.len()
        invariant
            end == offset + bytes@.len(),
            file@.len() == grown.len(),
            grown.len() >= end,
            j <= bytes@.len(),
            forall|i: int|
                0 <= i < grown.len() ==> #[trigger] file@[i] == if offset <= i < offset + j {
                    bytes@[i - offset]
                } else {
                    grown[i]
                },
        decreases bytes@.len() - j,
    {
        file.set(offset + j, bytes[j]);
        j = j + 1;
    }
    assert(file@ =~= write_at(old(file)@, offset as int, bytes@));
}

/// Applies a batch of writes to an in-memory file, growing it with zero
/// bytes where a write runs past its end.
pub fn apply(file: &mut Vec<u8>, batch: WriteBatch)
    requires
        ops_addressable(batch@),
    ensures
        final(file)@ == apply_ops(old(file)@, batch@),
{
    let ghost ops_model = batch@;
    let ops = batch.into_ops();
    let mut i: usize = 0;
    while i < ops.len()
        invariant
            ops@.map_values(|op: crate::writer::WriteOp| op@) == ops_model,
            ops_addressable(ops_model),
            i <= ops@.len(),
            file@ == apply_ops(old(file)@, ops_model.take(i as int)),
        decreases ops@.len() - i,
    {
        let op = &ops[i];
        assert(ops_model[i as int] == op@);
        assert(ops_model.take(i + 1).drop_last() =~= ops_model.take(i as int));
        write_bytes(file, op.offset as usize, &op.bytes);
        i = i + 1;
    }
    assert(ops_model.take(ops@.len() as int) =~= ops_model);
}


/// The payload `tile-<digit>` of a sample tile.
pub open spec fn tile_payload(digit: u8) -> Seq<u8> {
    seq![116u8, 105, 108, 101, 45, digit]
}

/// The writer of the sample file, before any write: one 40x40 level of
/// 16x16 JPEG tiles in YCbCr.
pub open spec fn sample_model() -> WriterModel {
    WriterModel {
        levels: seq![
            LevelLayout {
                width: 40,
                height: 40,
                tile_width: 16,
                tile_height: 16,
                tiles_across: 3,
                tiles_down: 3,
                dir_offset: 16,
                offsets_base: 272,
                counts_base: 344,
                offsets: Seq::new(9, |i: int| 0u64),
                counts: Seq::new(9, |i: int| 0u32),
            },
        ],
        codec: Codec::Jpeg,
        color_model: ColorModel::YCbCr,
        channels: 3,
        ycbcr_subsampling: (2, 2),
        file_len: 384,
        initialized: false,
    }
}

/// The writer of the sample file once its three tiles are written.
pub open spec fn sample_final_model() -> WriterModel {
    let m1 = tile_model(sample_model(), 0, (0, 0), 6);
    let m2 = tile_model(m1, 0, (1, 0), 6);
    tile_model(m2, 0, (2, 2), 6)
}

/// The bytes of the sample file: tiles (0, 0), (1, 0) and (2, 2) written
/// in that order.
pub open spec fn sample_bytes() -> Seq<u8> {
    let m0 = sample_model();
    let m1 = tile_model(m0, 0, (0, 0), 6);
    let m2 = tile_model(m1, 0, (1, 0), 6);
    let f1 = apply_ops(Seq::empty(), init_ops(m0) + tile_ops(m0, 0, (0, 0), tile_payload(48)));
    let f2 = apply_ops(f1, tile_ops(m1, 0, (1, 0), tile_payload(49)));
    apply_ops(f2, tile_ops(m2, 0, (2, 2), tile_payload(56)))
}

fn tile_name(digit: u8) -> (r: Vec<u8>)
    ensures
        r@ == tile_payload(digit),
{
    let mut v: Vec<u8> = Vec::new();
    v.push(116);
    v.push(105);
    v.push(108);
    v.push(101);
    v.push(45);
    v.push(digit);
    assert(v@ =~= tile_payload(digit));
    v
}

/// Returns a small valid ZIF file: one 40x40 level of 16x16 JPEG tiles in
/// YCbCr, of which tiles (0, 0), (1, 0) and (2, 2) are written.
pub fn zif_bytes() -> (r: Vec<u8>)
    ensures
        r@ == sample_bytes(),
        realizes(r@, sample_final_model()),
        separated(sample_final_model()),
        sample_final_model().wf(),
{
    let b = Writer::new().dimensions((40, 40));
    let b = match b.tile_size((16, 16)) {
        Ok(b) => b,
        Err(_) => {
            assert(false);
            return Vec::new();
        },
    };
    let b = b.codec(Codec::Jpeg).color_model(ColorModel::YCbCr);
    let b = match b.channels(3) {
        Ok(b) => b,
        Err(_) => {
            assert(false);
            return Vec::new();
        },
    };
    let ghost bm = b@;
    let ghost shapes = fresh_levels(requested_levels(bm));
    let ghost fresh = fresh_level((40, 40), (16, 16));
    proof {
        assert(bm.levels.len() == 0);
        assert(level_spec_valid((40, 40), (16, 16)));
        assert(pyramid_dims((40, 40), (16, 16), PyramidMode::SingleLevel) =~= seq![(40u64, 40u64)]);
        assert(requested_levels(bm) =~= seq![((40u64, 40u64), (16u32, 16u32))]);
        assert(shapes =~= seq![fresh]);
        assert(fresh.tile_count() == 9);
        reveal_with_fuel(offsets_prefix, 2);
        reveal_with_fuel(counts_prefix, 2);
        assert(offsets_prefix(shapes, 1) == 72);
        assert(counts_prefix(shapes, 1) == 40);
        reveal(arrays_start);
        assert(layout_total(shapes, 256) == 384);
    }
    let mut writer = match b.build() {
        Ok(w) => w,
        Err(_) => {
            assert(false);
            return Vec::new();
        },
    };
    proof {
        let w = writer@;
        reveal_with_fuel(offsets_prefix, 2);
        reveal_with_fuel(counts_prefix, 2);
        assert(same_shape(w.levels[0], fresh));
        assert(offsets_prefix(w.levels, 1) == 72);
        assert(counts_prefix(w.levels, 1) == 40);
        assert(w.levels[0].offsets =~= Seq::new(9, |i: int| 0u64));
        assert(w.levels[0].counts =~= Seq::new(9, |i: int| 0u32));
        reveal(arrays_start);
        assert(w.levels =~= sample_model().levels);
    }
    assert(writer@ == sample_model());
    let ghost m0 = sample_model();
    let ghost m1 = tile_model(m0, 0, (0, 0), 6);
    let ghost m2 = tile_model(m1, 0, (1, 0), 6);
    proof {
        assert(dims_encodable(m0.levels)) by {
            assert(m0.levels[0].width == 40);
        }
        reveal_with_fuel(offsets_prefix, 2);
        reveal_with_fuel(counts_prefix, 2);
        reveal_with_fuel(dirs_bytes, 2);
        lemma_directory_len(m0.levels[0], next_dir(m0.levels, 0), m0.codec, m0.color_model, m0.channels, m0.ycbcr_subsampling);
        assert(dirs_bytes(m0, 1).len() == 256);
        assert(arrays_size(m0.levels) == 112);
        reveal(arrays_start);
        assert(init_tail(m0) == 112);
    }
    let mut out: Vec<u8> = Vec::new();
    let t0 = tile_name(48);
    let b0 = match writer.put_tile((0, 0), t0.as_slice()) {
        Ok(b) => b,
        Err(_) => {
            assert(false);
            return Vec::new();
        },
    };
    proof {
        let ops = b0@;
        assert(ops.len() == 6);
        assert(ops_addressable(ops)) by {
            assert(ops[0].offset + ops[0].bytes.len() == 16);
            assert(ops[1].offset + ops[1].bytes.len() == 272);
            assert(ops[2].offset + ops[2].bytes.len() == 384);
            assert(ops[3].offset + ops[3].bytes.len() == 390);
            assert(ops[4].offset + ops[4].bytes.len() == 348);
            assert(ops[5].offset + ops[5].bytes.len() == 280);
        }
    }
    apply(&mut out, b0);
    proof {
        lemma_wf_init_model(m0);
        lemma_init_realizes(m0);
        lemma_init_separated_pub(m0);
        lemma_apply_ops_concat(Seq::empty(), init_ops(m0), tile_ops(m0, 0, (0, 0), tile_payload(48)));
        let mi = initialized_model(m0);
        assert(tile_ops(mi, 0, (0, 0), tile_payload(48)) == tile_ops(m0, 0, (0, 0), tile_payload(48)));
        assert(tile_model(mi, 0, (0, 0), 6) == m1);
        lemma_tile_realizes(apply_ops(Seq::empty(), init_ops(m0)), mi, 0, (0, 0), tile_payload(48));
        assert(realizes(out@, m1));
    }
    let t1 = tile_name(49);
    let b1 = match writer.put_tile((1, 0), t1.as_slice()) {
        Ok(b) => b,
        Err(_) => {
            assert(false);
            return Vec::new();
        },
    };
    assert(writer@ == m2);
    assert(m2.wf());
    proof {
        let ops = b1@;
        assert(ops.len() == 3);
        assert(ops_addressable(ops)) by {
            assert(ops[0].offset + ops[0].bytes.len() == 396);
            assert(ops[1].offset + ops[1].bytes.len() == 352);
            assert(ops[2].offset + ops[2].bytes.len() == 288);
        }
    }
    apply(&mut out, b1);
    proof {
        lemma_tile_realizes(apply_ops(Seq::empty(), init_ops(m0) + tile_ops(m0, 0, (0, 0), tile_payload(48))), m1, 0, (1, 0), tile_payload(49));
    }
    let t2 = tile_name(56);
    let b2 = match writer.put_tile((2, 2), t2.as_slice()) {
        Ok(b) => b,
        Err(_) => {
            assert(false);
            return Vec::new();
        },
    };
    proof {
        let ops = b2@;
        assert(ops.len() == 3);
        assert(ops_addressable(ops)) by {
            assert(ops[0].offset + ops[0].bytes.len() == 402);
            assert(ops[1].offset + ops[1].bytes.len() == 380);
            assert(ops[2].offset + ops[2].bytes.len() == 344);
        }
    }
    let ghost f2 = out@;
    apply(&mut out, b2);
    proof {
        lemma_tile_realizes(f2, m2, 0, (2, 2), tile_payload(56));
    }
    out
}

/// Returns the metadata of the sample file, as the reader parses it.
pub fn image() -> (r: Zif)
    ensures
        r@ == zif_model(read_levels(sample_final_model())),
{
    let bytes = zif_bytes();
    let ghost file = bytes@;
    let chunk = match Chunk::whole_file(bytes) {
        Ok(c) => c,
        Err(_) => vstd::pervasive::unreached(),
    };
    let mut reader = Reader::new();
    let done = match reader.advance(chunk) {
        Ok(ReadStatus::Done { .. }) => true,
        _ => false,
    };
    proof {
        let after = reader@;
        assert(knows_file(after.known, file)) by {
            assert forall|p: int| 0 <= p < file.len() implies #[trigger] byte_at(after.known, p) == Some(file[p]) by {}
        }
        lemma_written_file_reads_back(after.known, file, after.file_len, sample_final_model());
    }
    assert(done);
    match reader.into_zif() {
        Ok(z) => z,
        Err(_) => vstd::pervasive::unreached(),
    }
}

} // verus!
