use zif_tiff::sample::apply;
use zif_tiff::{
    ChainKind, Chunk, Codec, ColorModel, Error, LevelSpec, ReadStatus, Reader, WriteBatch, Writer, Zif,
};

fn parse_all(file: &[u8]) -> Zif {
    let mut reader = Reader::new();
    let status = reader
        .advance(Chunk::from_start(0, file.to_vec()).unwrap())
        .unwrap();
    assert!(matches!(status, ReadStatus::Done { .. }));
    reader.into_zif().unwrap()
}

fn rgb_writer(dimensions: (u64, u64)) -> Writer {
    Writer::new()
        .dimensions(dimensions)
        .tile_size((16, 16))
        .unwrap()
        .codec(Codec::Png)
        .color_model(ColorModel::Rgb)
        .channels(3)
        .unwrap()
        .build()
        .unwrap()
}

fn write(file: &mut Vec<u8>, batch: WriteBatch) {
    apply(file, batch);
}

fn u64_at(file: &[u8], at: usize) -> u64 {
    u64::from_le_bytes(file[at..at + 8].try_into().unwrap())
}

#[test]
fn init_emits_header_directories_and_zeroed_arrays() {
    let mut writer = rgb_writer((40, 40));
    let ops = writer.init().unwrap().into_ops();
    assert_eq!(ops.len(), 3);
    assert_eq!(ops[0].offset, 0);
    assert_eq!(
        ops[0].bytes,
        vec![0x49, 0x49, 0x2b, 0, 8, 0, 0, 0, 16, 0, 0, 0, 0, 0, 0, 0]
    );
    assert_eq!(ops[1].offset, 16);
    assert_eq!(ops[1].bytes.len(), 16 + 11 * 20);
    // Zeros after the directory: 4 bytes up to the next multiple of 8, the
    // offsets array, then the counts array padded to a multiple of 8.
    assert_eq!(ops[2].offset, 16 + 236);
    assert_eq!(ops[2].bytes, vec![0; 4 + 9 * 8 + 9 * 4 + 4]);
    assert!(matches!(writer.init(), Err(Error::InvalidInput(_))));
}

#[test]
fn single_tile_level_keeps_arrays_inline() {
    let mut writer = rgb_writer((16, 16));
    let ops = writer.init().unwrap().into_ops();
    assert_eq!(ops.len(), 3);
    assert_eq!(ops[2].bytes, vec![0; 4]);
    let mut file = Vec::new();
    for op in &ops {
        let at = op.offset as usize;
        if file.len() < at + op.bytes.len() {
            file.resize(at + op.bytes.len(), 0);
        }
        file[at..at + op.bytes.len()].copy_from_slice(&op.bytes);
    }
    assert_eq!(file.len(), 16 + 236 + 4);
}

#[test]
fn put_tile_appends_payload_and_patches_arrays() {
    let mut writer = rgb_writer((40, 40));
    let first = writer.put_tile((0, 0), b"abc").unwrap().into_ops();
    assert_eq!(first.len(), 6);
    let arrays = 16 + 236 + 4;
    let file_len = arrays + 9 * 8 + 9 * 4 + 4;
    assert_eq!(first[3].offset, file_len);
    assert_eq!(first[3].bytes, b"abc".to_vec());
    // The byte count is written before the offset that switches the tile.
    assert_eq!(first[4].offset, arrays + 72);
    assert_eq!(first[4].bytes, 3u32.to_le_bytes().to_vec());
    assert_eq!(first[5].offset, arrays);
    assert_eq!(first[5].bytes, file_len.to_le_bytes().to_vec());
    let second = writer.put_tile((1, 2), b"de").unwrap().into_ops();
    assert_eq!(second.len(), 3);
    assert_eq!(second[0].offset, file_len + 3);
    assert_eq!(second[1].offset, arrays + 72 + 7 * 4);
    assert_eq!(second[2].offset, arrays + 7 * 8);
}

#[test]
fn put_tile_rejects_bad_level_and_coordinates() {
    let mut writer = rgb_writer((40, 40));
    assert!(matches!(
        writer.put_tile_at_level(1, (0, 0), b"x"),
        Err(Error::InvalidInput(_))
    ));
    assert!(matches!(
        writer.put_tile((3, 0), b"x"),
        Err(Error::InvalidInput(_))
    ));
    assert!(matches!(
        writer.put_tile((0, 3), b"x"),
        Err(Error::InvalidInput(_))
    ));
    assert!(writer.init().is_ok());
}

#[test]
fn oversized_levels_cannot_be_initialized() {
    let mut writer = Writer::new()
        .level(LevelSpec::new((1 << 33, 16), (1 << 31, 16)).unwrap())
        .codec(Codec::Png)
        .color_model(ColorModel::Rgb)
        .channels(3)
        .unwrap()
        .build()
        .unwrap();
    assert!(matches!(writer.init(), Err(Error::Unsupported(_))));
    assert!(matches!(
        writer.put_tile((0, 0), b"x"),
        Err(Error::Unsupported(_))
    ));
}

#[test]
fn level_spec_errors_name_the_rule() {
    assert!(matches!(
        LevelSpec::new((0, 16), (16, 16)),
        Err(Error::InvalidInput(_))
    ));
    assert!(matches!(
        LevelSpec::new((16, 16), (24, 16)),
        Err(Error::InvalidInput(_))
    ));
    assert!(matches!(
        LevelSpec::new((u64::MAX, u64::MAX), (16, 16)),
        Err(Error::MalformedFile(_))
    ));
}

#[test]
fn builder_reports_missing_parameters() {
    assert!(matches!(
        Writer::new().codec(Codec::Png).build(),
        Err(Error::InvalidInput(_))
    ));
    assert!(matches!(
        Writer::new().dimensions((16, 16)).build(),
        Err(Error::InvalidInput(_))
    ));
    let no_codec = Writer::new()
        .dimensions((16, 16))
        .tile_size((16, 16))
        .unwrap()
        .color_model(ColorModel::Rgb)
        .channels(3)
        .unwrap()
        .build();
    assert!(matches!(no_codec, Err(Error::InvalidInput(_))));
    let bad_tile = Writer::new()
        .dimensions((16, 16))
        .tile_size((20, 16))
        .unwrap()
        .codec(Codec::Png)
        .color_model(ColorModel::Rgb)
        .channels(3)
        .unwrap()
        .build();
    assert!(matches!(bad_tile, Err(Error::InvalidInput(_))));
}

#[test]
fn builder_validates_subsampling() {
    assert!(Writer::new().ycbcr_subsampling((1, 1)).is_ok());
    assert!(Writer::new().ycbcr_subsampling((2, 2)).is_ok());
    assert!(matches!(
        Writer::new().ycbcr_subsampling((2, 1)),
        Err(Error::InvalidInput(_))
    ));
    assert!(Writer::new()
        .preserve_nonstandard_ycbcr_subsampling((2, 1))
        .is_ok());
    assert!(matches!(
        Writer::new().preserve_nonstandard_ycbcr_subsampling((0, 1)),
        Err(Error::InvalidInput(_))
    ));
}

#[test]
fn recorded_subsampling_reads_back() {
    let mut writer = Writer::new()
        .dimensions((16, 16))
        .tile_size((16, 16))
        .unwrap()
        .codec(Codec::Jpeg)
        .color_model(ColorModel::YCbCr)
        .channels(3)
        .unwrap()
        .ycbcr_subsampling((1, 1))
        .unwrap()
        .build()
        .unwrap();
    let mut file = Vec::new();
    write(&mut file, writer.put_tile((0, 0), b"t").unwrap());
    let zif = parse_all(&file);
    assert_eq!(zif.level(0).unwrap().ycbcr_subsampling(), Some((1, 1)));
}

#[test]
fn default_subsampling_is_420() {
    let mut writer = Writer::new()
        .dimensions((16, 16))
        .tile_size((16, 16))
        .unwrap()
        .codec(Codec::Jpeg)
        .color_model(ColorModel::YCbCr)
        .channels(3)
        .unwrap()
        .build()
        .unwrap();
    let mut file = Vec::new();
    write(&mut file, writer.put_tile((0, 0), b"t").unwrap());
    let zif = parse_all(&file);
    assert_eq!(zif.level(0).unwrap().ycbcr_subsampling(), Some((2, 2)));
}

#[test]
fn grayscale_needs_one_channel() {
    assert!(Writer::new()
        .dimensions((16, 16))
        .tile_size((16, 16))
        .unwrap()
        .codec(Codec::Jpeg)
        .color_model(ColorModel::BlackIsZero)
        .channels(1)
        .unwrap()
        .build()
        .is_ok());
    assert!(matches!(
        Writer::new()
            .dimensions((16, 16))
            .tile_size((16, 16))
            .unwrap()
            .codec(Codec::Jpeg)
            .color_model(ColorModel::Rgb)
            .channels(1)
            .unwrap()
            .build(),
        Err(Error::InvalidInput(_))
    ));
}

#[test]
fn pyramid_halves_down_to_one_tile() {
    let writer = Writer::new()
        .dimensions((100, 40))
        .tile_size((16, 16))
        .unwrap()
        .codec(Codec::Png)
        .color_model(ColorModel::Rgb)
        .channels(3)
        .unwrap()
        .pyramid()
        .build()
        .unwrap();
    assert_eq!(writer.level_count(), 4);
    assert_eq!(writer.level_dimensions(0).unwrap(), (100, 40));
    assert_eq!(writer.level_dimensions(1).unwrap(), (50, 20));
    assert_eq!(writer.level_dimensions(2).unwrap(), (25, 10));
    assert_eq!(writer.level_dimensions(3).unwrap(), (13, 5));
    assert_eq!(writer.level_tile_grid(0).unwrap(), (7, 3));
    assert_eq!(writer.level_tile_size(3).unwrap(), (16, 16));
    assert!(matches!(
        writer.level_dimensions(4),
        Err(Error::InvalidInput(_))
    ));
}

#[test]
fn pyramid_to_1x1_halves_down_to_one_pixel() {
    let writer = Writer::new()
        .dimensions((5, 3))
        .tile_size((16, 16))
        .unwrap()
        .codec(Codec::Png)
        .color_model(ColorModel::Rgb)
        .channels(3)
        .unwrap()
        .pyramid_to_1x1()
        .build()
        .unwrap();
    assert_eq!(writer.level_count(), 4);
    assert_eq!(writer.level_dimensions(1).unwrap(), (3, 2));
    assert_eq!(writer.level_dimensions(2).unwrap(), (2, 1));
    assert_eq!(writer.level_dimensions(3).unwrap(), (1, 1));
}

#[test]
fn pyramid_file_reads_back_as_pyramid() {
    let mut writer = Writer::new()
        .dimensions((64, 48))
        .tile_size((16, 16))
        .unwrap()
        .codec(Codec::Png)
        .color_model(ColorModel::Rgb)
        .channels(3)
        .unwrap()
        .pyramid()
        .build()
        .unwrap();
    let mut file = Vec::new();
    for level in 0..writer.level_count() {
        write(&mut file, writer.put_tile_at_level(level, (0, 0), b"p").unwrap());
    }
    let zif = parse_all(&file);
    assert_eq!(zif.level_count(), 3);
    assert_eq!(zif.chain_kind(), ChainKind::Pyramid);
    assert_eq!(zif.level(2).unwrap().dimensions(), (16, 12));
}

#[test]
fn equal_levels_read_back_as_time_series() {
    let mut writer = Writer::new()
        .level(LevelSpec::new((32, 32), (16, 16)).unwrap())
        .level(LevelSpec::new((32, 32), (16, 16)).unwrap())
        .codec(Codec::Png)
        .color_model(ColorModel::Rgb)
        .channels(3)
        .unwrap()
        .build()
        .unwrap();
    let mut file = Vec::new();
    write(&mut file, writer.init().unwrap());
    assert_eq!(parse_all(&file).chain_kind(), ChainKind::TimeSeries);
}

#[test]
fn add_level_before_first_write_relays_the_file() {
    let mut writer = rgb_writer((32, 32));
    let batch = writer
        .add_level(1, LevelSpec::new((16, 16), (16, 16)).unwrap())
        .unwrap();
    assert!(batch.is_empty());
    assert_eq!(writer.level_count(), 2);
    let mut file = Vec::new();
    write(&mut file, writer.put_tile_at_level(1, (0, 0), b"top").unwrap());
    let zif = parse_all(&file);
    assert_eq!(zif.level_count(), 2);
    assert_eq!(zif.chain_kind(), ChainKind::Pyramid);
    let tile = zif.level(1).unwrap().tile(0, 0).unwrap();
    let range = tile.bytes();
    assert_eq!(&file[range.start as usize..range.end as usize], b"top");
}

#[test]
fn add_level_after_first_write_appends_and_links() {
    let mut writer = rgb_writer((32, 32));
    let mut file = Vec::new();
    write(&mut file, writer.put_tile((0, 0), b"base").unwrap());
    let before = file.len() as u64;
    let ops = writer
        .add_level(1, LevelSpec::new((16, 16), (16, 16)).unwrap())
        .unwrap()
        .into_ops();
    assert_eq!(ops.len(), 2);
    assert_eq!(ops[0].offset, before);
    assert_eq!(ops[1].offset, 16 + 8 + 11 * 20);
    assert_eq!(ops[1].bytes, before.to_le_bytes().to_vec());
    let mut file2 = file.clone();
    for op in ops {
        let at = op.offset as usize;
        if file2.len() < at + op.bytes.len() {
            file2.resize(at + op.bytes.len(), 0);
        }
        file2[at..at + op.bytes.len()].copy_from_slice(&op.bytes);
    }
    write(&mut file2, writer.put_tile_at_level(1, (0, 0), b"top").unwrap());
    let zif = parse_all(&file2);
    assert_eq!(zif.level_count(), 2);
    assert_eq!(zif.level(1).unwrap().dimensions(), (16, 16));
    assert!(matches!(
        writer.add_level(5, LevelSpec::new((16, 16), (16, 16)).unwrap()),
        Err(Error::InvalidInput(_))
    ));
}

#[test]
fn add_level_at_front_patches_header() {
    let mut writer = rgb_writer((16, 16));
    let mut file = Vec::new();
    write(&mut file, writer.init().unwrap());
    let end = file.len() as u64;
    let ops = writer
        .add_level(0, LevelSpec::new((32, 32), (16, 16)).unwrap())
        .unwrap()
        .into_ops();
    assert_eq!(ops[1].offset, 8);
    assert_eq!(ops[1].bytes, end.to_le_bytes().to_vec());
    for op in ops {
        let at = op.offset as usize;
        if file.len() < at + op.bytes.len() {
            file.resize(at + op.bytes.len(), 0);
        }
        file[at..at + op.bytes.len()].copy_from_slice(&op.bytes);
    }
    let zif = parse_all(&file);
    assert_eq!(zif.dimensions(), (32, 32));
    assert_eq!(zif.level_count(), 2);
}

#[test]
fn remove_level_unlinks_directory() {
    let mut writer = Writer::new()
        .level(LevelSpec::new((32, 32), (16, 16)).unwrap())
        .level(LevelSpec::new((16, 16), (16, 16)).unwrap())
        .level(LevelSpec::new((8, 8), (16, 16)).unwrap())
        .codec(Codec::Png)
        .color_model(ColorModel::Rgb)
        .channels(3)
        .unwrap()
        .build()
        .unwrap();
    let mut file = Vec::new();
    write(&mut file, writer.init().unwrap());
    assert_eq!(u64_at(&file, 16 + 2 * 236), 11);
    assert_eq!(u64_at(&file, 16 + 2 * 236 + 228), 0);
    let ops = writer.remove_level(1).unwrap().into_ops();
    assert_eq!(ops.len(), 1);
    assert_eq!(ops[0].offset, 16 + 228);
    assert_eq!(ops[0].bytes, (16u64 + 2 * 236).to_le_bytes().to_vec());
    for op in ops {
        let at = op.offset as usize;
        file[at..at + op.bytes.len()].copy_from_slice(&op.bytes);
    }
    let zif = parse_all(&file);
    assert_eq!(zif.level_count(), 2);
    assert_eq!(zif.level(1).unwrap().dimensions(), (8, 8));
    assert_eq!(writer.level_count(), 2);
}

#[test]
fn remove_level_refuses_last_level_and_bad_index() {
    let mut writer = rgb_writer((16, 16));
    assert!(matches!(writer.remove_level(0), Err(Error::InvalidInput(_))));
    let mut two = Writer::new()
        .level(LevelSpec::new((32, 32), (16, 16)).unwrap())
        .level(LevelSpec::new((16, 16), (16, 16)).unwrap())
        .codec(Codec::Png)
        .color_model(ColorModel::Rgb)
        .channels(3)
        .unwrap()
        .build()
        .unwrap();
    assert!(matches!(two.remove_level(2), Err(Error::InvalidInput(_))));
    assert!(two.remove_level(0).unwrap().is_empty());
    assert_eq!(two.level_dimensions(0).unwrap(), (16, 16));
}

#[test]
fn set_dimensions_shrinks_and_keeps_overlapping_tiles() {
    let mut writer = rgb_writer((48, 48));
    let mut file = Vec::new();
    write(&mut file, writer.put_tile((0, 0), b"keep").unwrap());
    write(&mut file, writer.put_tile((2, 2), b"drop").unwrap());
    write(&mut file, writer.set_dimensions(0, (32, 16)).unwrap());
    let zif = parse_all(&file);
    assert_eq!(zif.dimensions(), (32, 16));
    assert_eq!(zif.level(0).unwrap().tile_grid(), (2, 1));
    let kept = zif.level(0).unwrap().tile(0, 0).unwrap().bytes();
    assert_eq!(&file[kept.start as usize..kept.end as usize], b"keep");
    let empty = zif.level(0).unwrap().tile(1, 0).unwrap().bytes();
    assert_eq!(empty.start, empty.end);
}

#[test]
fn set_dimensions_rejects_bad_input() {
    let mut writer = rgb_writer((32, 32));
    assert!(matches!(
        writer.set_dimensions(1, (16, 16)),
        Err(Error::InvalidInput(_))
    ));
    assert!(matches!(
        writer.set_dimensions(0, (0, 16)),
        Err(Error::InvalidInput(_))
    ));
    let mut wide = Writer::new()
        .level(LevelSpec::new((64, 16), (1 << 31, 16)).unwrap())
        .codec(Codec::Png)
        .color_model(ColorModel::Rgb)
        .channels(3)
        .unwrap()
        .build()
        .unwrap();
    let mut file = Vec::new();
    write(&mut file, wide.init().unwrap());
    assert!(matches!(
        wide.set_dimensions(0, (1 << 33, 16)),
        Err(Error::Unsupported(_))
    ));
    assert_eq!(wide.level_dimensions(0).unwrap(), (64, 16));
}

#[test]
fn sample_file_reads_back() {
    let file = zif_tiff::sample_zif_bytes();
    let zif = parse_all(&file);
    assert_eq!(zif.dimensions(), (40, 40));
    assert_eq!(zif.codec(), Codec::Jpeg);
    assert_eq!(zif.color_model(), ColorModel::YCbCr);
    let tile = zif.level(0).unwrap().tile(2, 2).unwrap().bytes();
    assert_eq!(&file[tile.start as usize..tile.end as usize], b"tile-8");
    let untouched = zif.level(0).unwrap().tile(1, 1).unwrap().bytes();
    assert_eq!(untouched.start, untouched.end);
}

#[test]
fn set_dimensions_to_one_tile_reads_back() {
    let mut writer = rgb_writer((32, 16));
    let mut file = Vec::new();
    write(&mut file, writer.put_tile((0, 0), b"first").unwrap());
    write(&mut file, writer.put_tile((1, 0), b"second").unwrap());
    write(&mut file, writer.set_dimensions(0, (16, 16)).unwrap());
    let zif = parse_all(&file);
    assert_eq!(zif.dimensions(), (16, 16));
    assert_eq!(zif.level(0).unwrap().tile_grid(), (1, 1));
    let kept = zif.level(0).unwrap().tile(0, 0).unwrap().bytes();
    assert_eq!(&file[kept.start as usize..kept.end as usize], b"first");
    // The resized directory is new: its inline byte counts hold one count.
    let dir = u64_at(&file, 8) as usize;
    let slot = dir + 8 + 20 * 10 + 12;
    assert_eq!(u32::from_le_bytes(file[slot..slot + 4].try_into().unwrap()), 5);
    assert_eq!(u32::from_le_bytes(file[slot + 4..slot + 8].try_into().unwrap()), 0);
}

#[test]
fn set_dimensions_is_safe_to_stop_after_any_write() {
    let mut writer = Writer::new()
        .dimensions((16, 16))
        .tile_size((16, 16))
        .unwrap()
        .codec(Codec::Jpeg)
        .color_model(ColorModel::YCbCr)
        .channels(3)
        .unwrap()
        .build()
        .unwrap();
    let mut file = Vec::new();
    write(&mut file, writer.put_tile((0, 0), b"old").unwrap());
    let ops = writer.set_dimensions(0, (32, 16)).unwrap().into_ops();
    assert_eq!(ops.len(), 2);
    for k in 0..=ops.len() {
        let mut partial = file.clone();
        for op in &ops[..k] {
            let at = op.offset as usize;
            if partial.len() < at + op.bytes.len() {
                partial.resize(at + op.bytes.len(), 0);
            }
            partial[at..at + op.bytes.len()].copy_from_slice(&op.bytes);
        }
        let zif = parse_all(&partial);
        let expected = if k < ops.len() { (16, 16) } else { (32, 16) };
        assert_eq!(zif.dimensions(), expected);
        let t = zif.level(0).unwrap().tile(0, 0).unwrap().bytes();
        assert_eq!(&partial[t.start as usize..t.end as usize], b"old");
    }
    // The new tile offsets array is 8-byte aligned.
    let dir = u64_at(&file_after(&file, &ops), 8) as usize;
    let after = file_after(&file, &ops);
    let slot = dir + 8 + 20 * 9 + 12;
    assert_eq!(u64_at(&after, slot) % 8, 0);
}

fn file_after(file: &[u8], ops: &[zif_tiff::WriteOp]) -> Vec<u8> {
    let mut out = file.to_vec();
    for op in ops {
        let at = op.offset as usize;
        if out.len() < at + op.bytes.len() {
            out.resize(at + op.bytes.len(), 0);
        }
        out[at..at + op.bytes.len()].copy_from_slice(&op.bytes);
    }
    out
}

#[test]
fn cropped_tiles_are_those_holding_a_region_pixel() {
    let mut writer = rgb_writer((48, 40));
    let mut file = Vec::new();
    write(&mut file, writer.init().unwrap());
    let zif = parse_all(&file);
    let picked: Vec<u64> = zif
        .get_cropped_level_tiles(0, (17..33, 15..17))
        .unwrap()
        .into_vec()
        .iter()
        .map(|t| t.index())
        .collect();
    assert_eq!(picked, vec![1, 2, 4, 5]);
    let edge: Vec<u64> = zif
        .get_cropped_level_tiles(0, (47..100, 39..100))
        .unwrap()
        .into_vec()
        .iter()
        .map(|t| t.index())
        .collect();
    assert_eq!(edge, vec![8]);
    assert_eq!(zif.get_cropped_level_tiles(0, (48..60, 0..10)).unwrap().count(), 0);
}

#[test]
fn appended_bytes_leave_the_file_readable() {
    let mut writer = rgb_writer((32, 32));
    let mut file = Vec::new();
    write(&mut file, writer.put_tile((1, 1), b"tile").unwrap());
    let before = parse_all(&file);
    file.extend_from_slice(b"trailing bytes");
    let after = parse_all(&file);
    assert_eq!(after.dimensions(), before.dimensions());
    let t = after.level(0).unwrap().tile(1, 1).unwrap().bytes();
    assert_eq!(&file[t.start as usize..t.end as usize], b"tile");
}

#[test]
fn exact_requests_and_whole_file_read_alike() {
    let mut writer = rgb_writer((40, 24));
    let mut file = Vec::new();
    write(&mut file, writer.put_tile((2, 1), b"corner").unwrap());
    write(&mut file, writer.put_tile((0, 0), b"origin").unwrap());

    let whole = parse_all(&file);

    let mut reader = Reader::new();
    let mut chunk = Chunk::default();
    let mut rounds = 0;
    loop {
        rounds += 1;
        assert!(rounds < 100);
        match reader.advance(chunk).unwrap() {
            ReadStatus::Need { req, .. } => {
                let r = req.range();
                let bytes = file[r.start as usize..r.end as usize].to_vec();
                chunk = Chunk::new(r, bytes).unwrap();
            }
            ReadStatus::Done { .. } => break,
        }
    }
    let pieces = reader.into_zif().unwrap();
    assert_eq!(pieces.dimensions(), whole.dimensions());
    assert_eq!(pieces.level_count(), whole.level_count());
    for (col, row) in [(0, 0), (1, 0), (2, 0), (0, 1), (1, 1), (2, 1)] {
        assert_eq!(
            pieces.level(0).unwrap().tile(col, row).unwrap().bytes(),
            whole.level(0).unwrap().tile(col, row).unwrap().bytes()
        );
    }
}

#[test]
fn a_prefix_is_taken_for_the_whole_file_only_while_chunks_start_at_zero() {
    let mut writer = rgb_writer((32, 16));
    let mut file = Vec::new();
    write(&mut file, writer.put_tile((0, 0), b"left tile").unwrap());
    write(&mut file, writer.put_tile((1, 0), b"right tile").unwrap());
    let cut = file.len() - 4;

    let mut from_zero = Reader::new();
    assert_eq!(
        from_zero
            .advance(Chunk::from_start(0, file[..cut].to_vec()).unwrap())
            .unwrap_err(),
        Error::MalformedFile("tile byte range exceeds file length")
    );

    let mut pieces = Reader::new();
    let status = pieces.advance(Chunk::from_start(0, file[..16].to_vec()).unwrap()).unwrap();
    assert!(matches!(status, ReadStatus::Need { .. }));
    let status = pieces.advance(Chunk::from_start(16, file[16..cut].to_vec()).unwrap()).unwrap();
    assert!(matches!(status, ReadStatus::Done { .. }));
    let t = pieces.zif().unwrap().level(0).unwrap().tile(1, 0).unwrap().bytes();
    assert_eq!(t.end as usize, file.len());

    let mut told = Reader::new();
    assert!(matches!(
        told.advance(Chunk::whole_file(file[..cut].to_vec()).unwrap()),
        Err(Error::MalformedFile(_))
    ));
    let mut whole = Reader::new();
    assert!(matches!(
        whole.advance(Chunk::whole_file(file.clone()).unwrap()).unwrap(),
        ReadStatus::Done { .. }
    ));
}

#[test]
fn referenced_arrays_start_at_multiples_of_8() {
    let mut writer = rgb_writer((48, 40));
    let mut file = Vec::new();
    write(&mut file, writer.put_tile((0, 0), b"odd").unwrap());
    write(
        &mut file,
        writer.add_level(1, LevelSpec::new((40, 24), (16, 16)).unwrap()).unwrap(),
    );
    write(&mut file, writer.put_tile_at_level(1, (0, 0), b"x").unwrap());
    write(&mut file, writer.set_dimensions(0, (64, 40)).unwrap());
    let mut dir = u64_at(&file, 8) as usize;
    let mut levels = 0;
    while dir != 0 {
        let count = u64_at(&file, dir) as usize;
        assert_eq!(count, 11);
        let offsets_slot = dir + 8 + 20 * 9 + 12;
        let counts_slot = dir + 8 + 20 * 10 + 12;
        assert_eq!(u64_at(&file, offsets_slot) % 8, 0);
        assert_eq!(u64_at(&file, counts_slot) % 8, 0);
        levels += 1;
        dir = u64_at(&file, dir + 8 + 20 * count) as usize;
    }
    assert_eq!(levels, 2);
    let zif = parse_all(&file);
    assert_eq!(zif.dimensions(), (64, 40));
}

#[test]
fn a_tile_write_leaves_a_readable_file_after_each_write() {
    let mut writer = rgb_writer((48, 40));
    let mut file = Vec::new();
    write(&mut file, writer.put_tile((1, 1), b"first").unwrap());
    let old = {
        let mut reader = Reader::new();
        reader.advance(Chunk::whole_file(file.clone()).unwrap()).unwrap();
        reader.zif().unwrap().level(0).unwrap().tile(1, 1).unwrap().bytes()
    };
    let ops = writer.put_tile((1, 1), b"second!").unwrap().into_ops();
    assert_eq!(ops.len(), 3);
    let mut states = Vec::new();
    for op in ops {
        let at = usize::try_from(op.offset).unwrap();
        if file.len() < at + op.bytes.len() {
            file.resize(at + op.bytes.len(), 0);
        }
        file[at..at + op.bytes.len()].copy_from_slice(&op.bytes);
        let mut reader = Reader::new();
        let status = reader.advance(Chunk::whole_file(file.clone()).unwrap()).unwrap();
        assert!(matches!(status, ReadStatus::Done { .. }));
        states.push(reader.zif().unwrap().level(0).unwrap().tile(1, 1).unwrap().bytes());
    }
    assert_eq!(states[0], old);
    assert_eq!(states[1], old.start..old.start + 7);
    let end = file.len() as u64;
    assert_eq!(states[2], end - 7..end);
    assert_eq!(&file[states[2].start as usize..], b"second!");
}

#[test]
fn every_tile_reads_back_its_last_payload() {
    let mut writer = rgb_writer((48, 40));
    let mut file = Vec::new();
    write(&mut file, writer.put_tile((0, 0), b"a").unwrap());
    write(&mut file, writer.put_tile((1, 0), b"bb").unwrap());
    write(&mut file, writer.put_tile((0, 0), b"ccc").unwrap());
    write(&mut file, writer.put_tile((2, 2), b"dddd").unwrap());
    let mut reader = Reader::new();
    reader.advance(Chunk::whole_file(file.clone()).unwrap()).unwrap();
    let level = reader.zif().unwrap().level(0).unwrap().clone();
    let payload = |c: u64, r: u64| {
        let range = level.tile(c, r).unwrap().bytes();
        file[range.start as usize..range.end as usize].to_vec()
    };
    assert_eq!(payload(0, 0), b"ccc");
    assert_eq!(payload(1, 0), b"bb");
    assert_eq!(payload(2, 2), b"dddd");
    assert_eq!(level.tile(2, 0).unwrap().bytes(), 0..0);
}
