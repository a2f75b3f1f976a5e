//! The Sans-IO writer: it keeps the layout of a ZIF file and emits the
//! write operations that create and update it.
use vstd::prelude::*;

use crate::error::Error;
use crate::format::{
    div_ceil, lemma_div_ceil, lemma_u16_roundtrip, lemma_u64_roundtrip, push_u16, push_u32, push_u64, spec_tile_grid,
    tile_count, u16_bytes, u32_bytes, u64_bytes, TAG_BITS, TAG_CHANNELS, TAG_CODEC, TAG_COLOR, TAG_HEIGHT,
    TAG_INTERLEAVE, TAG_TILE_COUNTS, TAG_TILE_HEIGHT, TAG_TILE_OFFSETS, TAG_TILE_WIDTH, TAG_WIDTH,
    TAG_YCBCR_SUBSAMPLING, TYPE_U16, TYPE_U32, TYPE_U64,
};
use crate::model::{lemma_classify_by_sizes, lemma_div_mono, spec_classify, ChainKind, Codec, ColorModel, LevelModel};
use crate::reader::header_magic;

verus! {

/// `n` zero bytes.
pub open spec fn zeros(n: int) -> Seq<u8> {
    Seq::new(n as nat, |i: int| 0u8)
}

/// Dimensions and tile size of one level to be written.
#[derive(Debug, Clone, Copy, PartialEq, Eq)]
pub struct LevelSpec {
    dimensions: (u64, u64),
    tile_size: (u32, u32),
}

/// The rules a level must satisfy to be written: non-zero dimensions, tile
/// sizes that are non-zero multiples of 16, and a tile count that fits in
/// 64 bits.
pub open spec fn level_spec_valid(dimensions: (u64, u64), tile_size: (u32, u32)) -> bool {
    &&& dimensions.0 != 0
    &&& dimensions.1 != 0
    &&& tile_size.0 != 0
    &&& tile_size.1 != 0
    &&& tile_size.0 % 16 == 0
    &&& tile_size.1 % 16 == 0
    &&& spec_tile_grid(dimensions.0 as int, dimensions.1 as int, tile_size.0 as int, tile_size.1 as int).2 <= u64::MAX
}

impl View for LevelSpec {
    type V = ((u64, u64), (u32, u32));

    closed spec fn view(&self) -> ((u64, u64), (u32, u32)) {
        (self.dimensions, self.tile_size)
    }
}

/// Non-zero dimensions and tile sizes that are multiples of 16.
pub open spec fn level_shape_ok(dimensions: (u64, u64), tile_size: (u32, u32)) -> bool {
    &&& dimensions.0 != 0
    &&& dimensions.1 != 0
    &&& tile_size.0 != 0
    &&& tile_size.1 != 0
    &&& tile_size.0 % 16 == 0
    &&& tile_size.1 % 16 == 0
}

/// The error a level of this shape is refused with: an invalid shape, or
/// a tile count beyond 64 bits.
pub open spec fn level_spec_error(dimensions: (u64, u64), tile_size: (u32, u32), e: Error) -> bool {
    if level_shape_ok(dimensions, tile_size) {
        e is MalformedFile
    } else {
        e is InvalidInput
    }
}

fn validate_level_spec(dimensions: (u64, u64), tile_size: (u32, u32)) -> (r: Result<(), Error>)
    ensures
        r is Ok <==> level_spec_valid(dimensions, tile_size),
        r matches Err(e) ==> level_spec_error(dimensions, tile_size, e),
{
    if dimensions.0 == 0 || dimensions.1 == 0 || tile_size.0 == 0 || tile_size.1 == 0 {
        return Err(Error::InvalidInput("zero dimension"));
    }
    if tile_size.0 % 16 != 0 || tile_size.1 % 16 != 0 {
        return Err(Error::InvalidInput("tile size must be a multiple of 16"));
    }
    match tile_count(dimensions.0, dimensions.1, tile_size.0 as u64, tile_size.1 as u64) {
        Ok(_) => Ok(()),
        Err(e) => Err(e),
    }
}

impl LevelSpec {
    #[verifier::type_invariant]
    pub open spec fn inv(self) -> bool {
        level_spec_valid(self@.0, self@.1)
    }

    /// Describes a level of `dimensions` pixels cut into `tile_size` tiles.
    pub fn new(dimensions: (u64, u64), tile_size: (u32, u32)) -> (r: Result<Self, Error>)
        ensures
            r is Ok <==> level_spec_valid(dimensions, tile_size),
            r matches Ok(s) ==> s@ == (dimensions, tile_size),
            r matches Err(e) ==> level_spec_error(dimensions, tile_size, e),
    {
        match validate_level_spec(dimensions, tile_size) {
            Ok(()) => Ok(Self { dimensions, tile_size }),
            Err(e) => Err(e),
        }
    }
}

fn validate_channels(channels: u16) -> (r: Result<(), Error>)
    ensures
        r is Ok <==> channels == 1 || channels == 3,
        r matches Err(e) ==> e is InvalidInput,
{
    if channels == 1 || channels == 3 {
        Ok(())
    } else {
        Err(Error::InvalidInput("channels must be 1 or 3"))
    }
}

fn validate_color_channels(color: ColorModel, channels: u16) -> (r: Result<(), Error>)
    ensures
        r is Ok <==> color.matches_channels(channels),
        r matches Err(e) ==> e is InvalidInput,
{
    let ok = match color {
        ColorModel::WhiteIsZero | ColorModel::BlackIsZero => channels == 1,
        ColorModel::Rgb | ColorModel::YCbCr => channels == 3,
    };
    if ok {
        Ok(())
    } else {
        Err(Error::InvalidInput("color model does not match channels"))
    }
}

/// The subsampling factors a conforming writer may record: 4:4:4 or 4:2:0.
pub open spec fn standard_subsampling(s: (u16, u16)) -> bool {
    (s.0 == 1 && s.1 == 1) || (s.0 == 2 && s.1 == 2)
}

fn validate_ycbcr_subsampling(subsampling: (u16, u16)) -> (r: Result<(), Error>)
    ensures
        r is Ok <==> standard_subsampling(subsampling),
        r matches Err(e) ==> e is InvalidInput,
{
    if (subsampling.0 == 1 && subsampling.1 == 1) || (subsampling.0 == 2 && subsampling.1 == 2) {
        return Ok(());
    }
    Err(Error::InvalidInput("unsupported YCbCr subsampling"))
}

fn validate_nonstandard_ycbcr_subsampling(subsampling: (u16, u16)) -> (r: Result<(), Error>)
    ensures
        r is Ok <==> subsampling.0 != 0 && subsampling.1 != 0,
        r matches Err(e) ==> e is InvalidInput,
{
    if subsampling.0 == 0 || subsampling.1 == 0 {
        return Err(Error::InvalidInput("YCbCr subsampling factors must be non-zero"));
    }
    Ok(())
}


/// One level of the file being written, as plain values.
pub struct LevelLayout {
    pub width: u64,
    pub height: u64,
    pub tile_width: u32,
    pub tile_height: u32,
    pub tiles_across: u64,
    pub tiles_down: u64,
    /// File offset of the level's directory.
    pub dir_offset: u64,
    /// File offset of the tile offset values (the directory slot when inline).
    pub offsets_base: u64,
    /// File offset of the tile byte count values (the directory slot when inline).
    pub counts_base: u64,
    pub offsets: Seq<u64>,
    pub counts: Seq<u32>,
}

impl LevelLayout {
    pub open spec fn tile_count(self) -> int {
        self.tiles_across * self.tiles_down
    }

    /// The grid matches the dimensions and the tile arrays match the grid.
    pub open spec fn wf(self) -> bool {
        &&& level_spec_valid((self.width, self.height), (self.tile_width, self.tile_height))
        &&& self.tiles_across == div_ceil(self.width as int, self.tile_width as int)
        &&& self.tiles_down == div_ceil(self.height as int, self.tile_height as int)
        &&& self.offsets.len() == self.tile_count()
        &&& self.counts.len() == self.tile_count()
    }
}

/// Whether directories carry the YCbCr subsampling entry.
pub open spec fn has_subsampling_entry(codec: Codec, color: ColorModel) -> bool {
    codec == Codec::Jpeg && color == ColorModel::YCbCr
}

/// Number of entries in every directory.
pub open spec fn entry_count(codec: Codec, color: ColorModel) -> int {
    if has_subsampling_entry(codec, color) {
        12
    } else {
        11
    }
}

/// Byte size of every directory: count, entries and next pointer.
pub open spec fn dir_size(codec: Codec, color: ColorModel) -> int {
    16 + 20 * entry_count(codec, color)
}

/// Offset, within a directory, of the value slot of entry `i`.
pub open spec fn slot_of(i: int) -> int {
    8 + 20 * i + 12
}

/// An entry: code, value type, count and the 8-byte value slot.
pub open spec fn entry_bytes(code: u16, ty: u16, count: u64, slot: Seq<u8>) -> Seq<u8> {
    u16_bytes(code) + u16_bytes(ty) + u64_bytes(count) + slot
}

/// The value slot of the tile offsets entry: the one offset inline, or the
/// position of the array.
pub open spec fn offsets_slot(offsets: Seq<u64>, pos: u64) -> Seq<u8> {
    if offsets.len() == 1 {
        u64_bytes(offsets[0])
    } else {
        u64_bytes(pos)
    }
}

/// The value slot of the tile byte counts entry: up to two counts inline,
/// or the position of the array.
pub open spec fn counts_slot(counts: Seq<u32>, pos: u64) -> Seq<u8> {
    if counts.len() == 0 {
        zeros(8)
    } else if counts.len() == 1 {
        u32_bytes(counts[0]) + zeros(4)
    } else if counts.len() == 2 {
        u32_bytes(counts[0]) + u32_bytes(counts[1])
    } else {
        u64_bytes(pos)
    }
}

/// A directory entry as it is encoded: code, value type, count and the
/// bytes of its value slot.
pub struct RawEntry {
    pub code: u16,
    pub ty: u16,
    pub count: u64,
    pub slot: Seq<u8>,
}

/// The bytes of a list of entries, one after the other.
pub open spec fn entries_bytes(es: Seq<RawEntry>) -> Seq<u8>
    decreases es.len(),
{
    if es.len() == 0 {
        Seq::empty()
    } else {
        entries_bytes(es.drop_last()) + entry_bytes(es.last().code, es.last().ty, es.last().count, es.last().slot)
    }
}

/// Every slot of the list takes 8 bytes.
pub open spec fn slots_sized(es: Seq<RawEntry>) -> bool {
    forall|i: int| 0 <= i < es.len() ==> (#[trigger] es[i]).slot.len() == 8
}

pub proof fn lemma_entries_bytes_len(es: Seq<RawEntry>)
    requires
        slots_sized(es),
    ensures
        entries_bytes(es).len() == 20 * es.len(),
    decreases es.len(),
{
    if es.len() > 0 {
        lemma_entries_bytes_len(es.drop_last());
        lemma_u16_roundtrip(es.last().code, Seq::empty(), Seq::empty());
        lemma_u16_roundtrip(es.last().ty, Seq::empty(), Seq::empty());
        lemma_u64_roundtrip(es.last().count, Seq::empty(), Seq::empty());
    }
}

proof fn lemma_entries_append(head: Seq<u8>, es: Seq<RawEntry>, k: int, before: Seq<u8>, after: Seq<u8>)
    requires
        0 <= k < es.len(),
        before == head + entries_bytes(es.take(k)),
        after == before + entry_bytes(es[k].code, es[k].ty, es[k].count, es[k].slot),
    ensures
        after == head + entries_bytes(es.take(k + 1)),
{
    lemma_entries_take_step(es, k);
    assert(after =~= head + entries_bytes(es.take(k + 1)));
}

/// Adding one entry to a prefix of a list adds its bytes.
pub proof fn lemma_entries_take_step(es: Seq<RawEntry>, k: int)
    requires
        0 <= k < es.len(),
    ensures
        entries_bytes(es.take(k + 1)) == entries_bytes(es.take(k)) + entry_bytes(es[k].code, es[k].ty, es[k].count, es[k].slot),
{
    assert(es.take(k + 1).drop_last() =~= es.take(k));
}

/// The entries of the directory of level `l`, in the order they are
/// written: 32-bit dimensions, bit depth, codec, color model, channel
/// count, interleaving, tile size, tile offsets, tile byte counts, and for
/// JPEG in YCbCr the subsampling.
pub open spec fn dir_entries(l: LevelLayout, codec: Codec, color: ColorModel, channels: u16, ycbcr: (u16, u16)) -> Seq<
    RawEntry,
> {
    let base = seq![
        RawEntry { code: TAG_WIDTH, ty: TYPE_U32, count: 1, slot: u32_bytes(l.width as u32) + zeros(4) },
        RawEntry { code: TAG_HEIGHT, ty: TYPE_U32, count: 1, slot: u32_bytes(l.height as u32) + zeros(4) },
        RawEntry { code: TAG_BITS, ty: TYPE_U16, count: 1, slot: u16_bytes(8) + zeros(6) },
        RawEntry { code: TAG_CODEC, ty: TYPE_U16, count: 1, slot: u16_bytes(codec.spec_code()) + zeros(6) },
        RawEntry { code: TAG_COLOR, ty: TYPE_U16, count: 1, slot: u16_bytes(color.spec_code()) + zeros(6) },
        RawEntry { code: TAG_CHANNELS, ty: TYPE_U16, count: 1, slot: u16_bytes(channels) + zeros(6) },
        RawEntry { code: TAG_INTERLEAVE, ty: TYPE_U16, count: 1, slot: u16_bytes(1) + zeros(6) },
        RawEntry { code: TAG_TILE_WIDTH, ty: TYPE_U32, count: 1, slot: u32_bytes(l.tile_width) + zeros(4) },
        RawEntry { code: TAG_TILE_HEIGHT, ty: TYPE_U32, count: 1, slot: u32_bytes(l.tile_height) + zeros(4) },
        RawEntry {
            code: TAG_TILE_OFFSETS,
            ty: TYPE_U64,
            count: l.offsets.len() as u64,
            slot: offsets_slot(l.offsets, l.offsets_base),
        },
        RawEntry {
            code: TAG_TILE_COUNTS,
            ty: TYPE_U32,
            count: l.counts.len() as u64,
            slot: counts_slot(l.counts, l.counts_base),
        },
    ];
    if has_subsampling_entry(codec, color) {
        base.push(
            RawEntry {
                code: TAG_YCBCR_SUBSAMPLING,
                ty: TYPE_U16,
                count: 2,
                slot: u16_bytes(ycbcr.0) + u16_bytes(ycbcr.1) + zeros(4),
            },
        )
    } else {
        base
    }
}

/// The bytes of the directory of a level whose successor is at `next`: the
/// entry count, the entries, and the offset of the next directory.
#[verifier::opaque]
pub open spec fn spec_encode_directory(
    l: LevelLayout,
    next: u64,
    codec: Codec,
    color: ColorModel,
    channels: u16,
    ycbcr: (u16, u16),
) -> Seq<u8> {
    u64_bytes(entry_count(codec, color) as u64) + entries_bytes(dir_entries(l, codec, color, channels, ycbcr))
        + u64_bytes(next)
}

#[derive(Debug)]
struct LevelState {
    spec: LevelSpec,
    tiles_across: u64,
    tiles_down: u64,
    dir_offset: u64,
    offsets_base: u64,
    counts_base: u64,
    offsets: Vec<u64>,
    counts: Vec<u32>,
}

impl View for LevelState {
    type V = LevelLayout;

    closed spec fn view(&self) -> LevelLayout {
        LevelLayout {
            width: self.spec.dimensions.0,
            height: self.spec.dimensions.1,
            tile_width: self.spec.tile_size.0,
            tile_height: self.spec.tile_size.1,
            tiles_across: self.tiles_across,
            tiles_down: self.tiles_down,
            dir_offset: self.dir_offset,
            offsets_base: self.offsets_base,
            counts_base: self.counts_base,
            offsets: self.offsets@,
            counts: self.counts@,
        }
    }
}

impl Clone for LevelState {
    fn clone(&self) -> (r: Self)
        ensures
            r@ == self@,
    {
        let offsets = self.offsets.clone();
        let counts = self.counts.clone();
        assert(offsets@ == self.offsets@);
        assert(counts@ == self.counts@);
        LevelState {
            spec: self.spec,
            tiles_across: self.tiles_across,
            tiles_down: self.tiles_down,
            dir_offset: self.dir_offset,
            offsets_base: self.offsets_base,
            counts_base: self.counts_base,
            offsets,
            counts,
        }
    }
}

fn push_entry_header(out: &mut Vec<u8>, code: u16, ty: u16, count: u64)
    ensures
        final(out)@ == old(out)@ + u16_bytes(code) + u16_bytes(ty) + u64_bytes(count),
{
    push_u16(out, code);
    push_u16(out, ty);
    push_u64(out, count);
}

fn push_zeros(out: &mut Vec<u8>, n: usize)
    ensures
        final(out)@ == old(out)@ + zeros(n as int),
{
    let mut i: usize = 0;
    while i < n
        invariant
            i <= n,
            out@ == old(out)@ + zeros(i as int),
        decreases n - i,
    {
        out.push(0);
        i = i + 1;
        assert(out@ =~= old(out)@ + zeros(i as int));
    }
}

fn entry_u16(out: &mut Vec<u8>, code: u16, value: u16)
    ensures
        final(out)@ == old(out)@ + entry_bytes(code, TYPE_U16, 1, u16_bytes(value) + zeros(6)),
{
    push_entry_header(out, code, TYPE_U16, 1);
    push_u16(out, value);
    push_zeros(out, 6);
    assert(final(out)@ =~= old(out)@ + entry_bytes(code, TYPE_U16, 1, u16_bytes(value) + zeros(6)));
}

fn entry_u32(out: &mut Vec<u8>, code: u16, value: u32)
    ensures
        final(out)@ == old(out)@ + entry_bytes(code, TYPE_U32, 1, u32_bytes(value) + zeros(4)),
{
    push_entry_header(out, code, TYPE_U32, 1);
    push_u32(out, value);
    push_zeros(out, 4);
    assert(final(out)@ =~= old(out)@ + entry_bytes(code, TYPE_U32, 1, u32_bytes(value) + zeros(4)));
}

fn entry_u16_array_inline(out: &mut Vec<u8>, code: u16, values: (u16, u16))
    ensures
        final(out)@ == old(out)@ + entry_bytes(code, TYPE_U16, 2, u16_bytes(values.0) + u16_bytes(values.1) + zeros(4)),
{
    push_entry_header(out, code, TYPE_U16, 2);
    push_u16(out, values.0);
    push_u16(out, values.1);
    push_zeros(out, 4);
    assert(final(out)@ =~= old(out)@ + entry_bytes(code, TYPE_U16, 2, u16_bytes(values.0) + u16_bytes(values.1) + zeros(4)));
}

fn entry_u64_array(out: &mut Vec<u8>, code: u16, values: &Vec<u64>, pos: u64)
    ensures
        final(out)@ == old(out)@ + entry_bytes(code, TYPE_U64, values@.len() as u64, offsets_slot(values@, pos)),
{
    push_entry_header(out, code, TYPE_U64, values.len() as u64);
    if values.len() == 1 {
        push_u64(out, values[0]);
    } else {
        push_u64(out, pos);
    }
    assert(final(out)@ =~= old(out)@ + entry_bytes(code, TYPE_U64, values@.len() as u64, offsets_slot(values@, pos)));
}

fn entry_u32_array(out: &mut Vec<u8>, code: u16, values: &Vec<u32>, pos: u64)
    ensures
        final(out)@ == old(out)@ + entry_bytes(code, TYPE_U32, values@.len() as u64, counts_slot(values@, pos)),
{
    push_entry_header(out, code, TYPE_U32, values.len() as u64);
    if values.len() == 0 {
        push_zeros(out, 8);
    } else if values.len() == 1 {
        push_u32(out, values[0]);
        push_zeros(out, 4);
    } else if values.len() == 2 {
        push_u32(out, values[0]);
        push_u32(out, values[1]);
    } else {
        push_u64(out, pos);
    }
    assert(final(out)@ =~= old(out)@ + entry_bytes(code, TYPE_U32, values@.len() as u64, counts_slot(values@, pos)));
}

/// Encodes the directory of a level whose successor is at `next`; levels
/// wider or taller than `u32::MAX` cannot be recorded.
fn encode_directory(
    level: &LevelState,
    next: u64,
    codec: Codec,
    color: ColorModel,
    channels: u16,
    ycbcr_subsampling: (u16, u16),
) -> (r: Result<Vec<u8>, Error>)
    ensures
        r is Ok <==> level@.width <= u32::MAX && level@.height <= u32::MAX,
        r matches Ok(b) ==> b@ == spec_encode_directory(level@, next, codec, color, channels, ycbcr_subsampling),
        r matches Err(e) ==> e is Unsupported,
{
    if level.spec.dimensions.0 > 0xffff_ffff {
        return Err(Error::Unsupported("width exceeds u32"));
    }
    if level.spec.dimensions.1 > 0xffff_ffff {
        return Err(Error::Unsupported("height exceeds u32"));
    }
    let has_ycbcr = match (codec, color) {
        (Codec::Jpeg, ColorModel::YCbCr) => true,
        _ => false,
    };
    let ghost es = dir_entries(level@, codec, color, channels, ycbcr_subsampling);
    let mut out: Vec<u8> = Vec::new();
    push_u64(&mut out, if has_ycbcr { 12 } else { 11 });
    let ghost head = out@;
    assert(head =~= head + entries_bytes(es.take(0)));
    let ghost before = out@;
    entry_u32(&mut out, TAG_WIDTH, level.spec.dimensions.0 as u32);
    proof {
        lemma_entries_append(head, es, 0, before, out@);
    }
    let ghost before = out@;
    entry_u32(&mut out, TAG_HEIGHT, level.spec.dimensions.1 as u32);
    proof {
        lemma_entries_append(head, es, 1, before, out@);
    }
    let ghost before = out@;
    entry_u16(&mut out, TAG_BITS, 8);
    proof {
        lemma_entries_append(head, es, 2, before, out@);
    }
    let ghost before = out@;
    entry_u16(&mut out, TAG_CODEC, codec.code());
    proof {
        lemma_entries_append(head, es, 3, before, out@);
    }
    let ghost before = out@;
    entry_u16(&mut out, TAG_COLOR, color.code());
    proof {
        lemma_entries_append(head, es, 4, before, out@);
    }
    let ghost before = out@;
    entry_u16(&mut out, TAG_CHANNELS, channels);
    proof {
        lemma_entries_append(head, es, 5, before, out@);
    }
    let ghost before = out@;
    entry_u16(&mut out, TAG_INTERLEAVE, 1);
    proof {
        lemma_entries_append(head, es, 6, before, out@);
    }
    let ghost before = out@;
    entry_u32(&mut out, TAG_TILE_WIDTH, level.spec.tile_size.0);
    proof {
        lemma_entries_append(head, es, 7, before, out@);
    }
    let ghost before = out@;
    entry_u32(&mut out, TAG_TILE_HEIGHT, level.spec.tile_size.1);
    proof {
        lemma_entries_append(head, es, 8, before, out@);
    }
    let ghost before = out@;
    entry_u64_array(&mut out, TAG_TILE_OFFSETS, &level.offsets, level.offsets_base);
    proof {
        lemma_entries_append(head, es, 9, before, out@);
    }
    let ghost before = out@;
    entry_u32_array(&mut out, TAG_TILE_COUNTS, &level.counts, level.counts_base);
    proof {
        lemma_entries_append(head, es, 10, before, out@);
    }
    if has_ycbcr {
        let ghost before = out@;
        entry_u16_array_inline(&mut out, TAG_YCBCR_SUBSAMPLING, ycbcr_subsampling);
        proof {
            lemma_entries_append(head, es, 11, before, out@);
            assert(es.take(12) =~= es);
        }
    } else {
        assert(es.take(11) =~= es);
    }
    push_u64(&mut out, next);
    proof {
        reveal(spec_encode_directory);
    }
    Ok(out)
}

/// One write: `bytes` at file offset `offset`.
pub struct OpModel {
    pub offset: u64,
    pub bytes: Seq<u8>,
}

/// A write of `bytes` at file offset `offset`.
#[derive(Debug, Clone, PartialEq, Eq)]
pub struct WriteOp {
    pub offset: u64,
    pub bytes: Vec<u8>,
}

impl View for WriteOp {
    type V = OpModel;

    open spec fn view(&self) -> OpModel {
        OpModel { offset: self.offset, bytes: self.bytes@ }
    }
}

/// The writes of one update, to be applied in order.
#[derive(Debug, Clone, PartialEq, Eq)]
pub struct WriteBatch {
    ops: Vec<WriteOp>,
}

impl View for WriteBatch {
    type V = Seq<OpModel>;

    closed spec fn view(&self) -> Seq<OpModel> {
        self.ops@.map_values(|op: WriteOp| op@)
    }
}

impl WriteBatch {
    fn new() -> (r: Self)
        ensures
            r@ == Seq::<OpModel>::empty(),
    {
        let r = WriteBatch { ops: Vec::new() };
        assert(r@ =~= Seq::<OpModel>::empty());
        r
    }

    fn push(&mut self, offset: u64, bytes: Vec<u8>)
        ensures
            final(self)@ == old(self)@.push(OpModel { offset, bytes: bytes@ }),
    {
        self.ops.push(WriteOp { offset, bytes });
        assert(final(self)@ =~= old(self)@.push(OpModel { offset, bytes: bytes@ }));
    }

    /// Returns the write operations in order.
    pub fn ops(&self) -> (r: &[WriteOp])
        ensures
            r@.map_values(|op: WriteOp| op@) == self@,
    {
        self.ops.as_slice()
    }

    /// Consumes the batch and returns the write operations in order.
    pub fn into_ops(self) -> (r: Vec<WriteOp>)
        ensures
            r@.map_values(|op: WriteOp| op@) == self@,
    {
        self.ops
    }

    /// Returns true when the batch holds no write.
    pub fn is_empty(&self) -> (r: bool)
        ensures
            r == (self@.len() == 0),
    {
        self.ops.len() == 0
    }
}

/// The little-endian bytes of `v`, as a vector.
fn u64_vec(v: u64) -> (r: Vec<u8>)
    ensures
        r@ == u64_bytes(v),
{
    let mut out: Vec<u8> = Vec::new();
    push_u64(&mut out, v);
    assert(out@ =~= u64_bytes(v));
    out
}

/// The little-endian bytes of `v`, as a vector.
fn u32_vec(v: u32) -> (r: Vec<u8>)
    ensures
        r@ == u32_bytes(v),
{
    let mut out: Vec<u8> = Vec::new();
    push_u32(&mut out, v);
    assert(out@ =~= u32_bytes(v));
    out
}

/// Bytes taken by a level's tile offset array outside its directory.
pub open spec fn offsets_array_size(l: LevelLayout) -> int {
    if l.offsets.len() > 1 {
        8 * (l.offsets.len() as int)
    } else {
        0
    }
}

/// Bytes taken by a level's tile byte count array outside its directory.
/// Bytes taken by a level's tile byte count array outside its directory,
/// padded to a multiple of 8 so that the next array starts aligned.
pub open spec fn counts_array_size(l: LevelLayout) -> int {
    if l.counts.len() > 2 {
        4 * (l.counts.len() as int) + 4 * (l.counts.len() as int % 2)
    } else {
        0
    }
}

/// Where the arrays of a file not yet written start: after the header and
/// `n` directories of `dsize` bytes, at the next multiple of 8.
#[verifier::opaque]
pub open spec fn arrays_start(n: int, dsize: int) -> int {
    align8(16 + n * dsize)
}

/// The arrays start after the directories, within 8 bytes, aligned.
pub proof fn lemma_arrays_start(n: int, dsize: int)
    ensures
        16 + n * dsize <= arrays_start(n, dsize) < 16 + n * dsize + 8,
        arrays_start(n, dsize) % 8 == 0,
{
    reveal(arrays_start);
}

/// Fewer directories never start the arrays later.
pub proof fn lemma_arrays_start_mono(n1: int, n2: int, dsize: int)
    requires
        n1 <= n2,
        dsize >= 0,
    ensures
        arrays_start(n1, dsize) <= arrays_start(n2, dsize),
{
    reveal(arrays_start);
    assert(n1 * dsize <= n2 * dsize) by (nonlinear_arith)
        requires n1 <= n2, dsize >= 0;
}

/// Total size of the offset arrays of the first `i` levels.
pub open spec fn offsets_prefix(levels: Seq<LevelLayout>, i: int) -> int
    decreases i,
{
    if i <= 0 {
        0
    } else {
        offsets_prefix(levels, i - 1) + offsets_array_size(levels[i - 1])
    }
}

/// Total size of the byte count arrays of the first `i` levels.
pub open spec fn counts_prefix(levels: Seq<LevelLayout>, i: int) -> int
    decreases i,
{
    if i <= 0 {
        0
    } else {
        counts_prefix(levels, i - 1) + counts_array_size(levels[i - 1])
    }
}

/// The layout of a file not yet written: the header, every directory in
/// chain order, every referenced offset array from the next multiple of 8,
/// then every referenced byte count array, each padded to a multiple of 8.
pub open spec fn canonical_layout(levels: Seq<LevelLayout>, dsize: int, file_len: int) -> bool {
    let arrays = arrays_start(levels.len() as int, dsize);
    let offsets_end = arrays + offsets_prefix(levels, levels.len() as int);
    &&& forall|i: int| 0 <= i < levels.len() ==> (#[trigger] levels[i]).dir_offset == 16 + i * dsize
    &&& forall|i: int| 0 <= i < levels.len() ==> (#[trigger] levels[i]).offsets_base == if levels[i].offsets.len() > 1 {
        arrays + offsets_prefix(levels, i)
    } else {
        levels[i].dir_offset + slot_of(9)
    }
    &&& forall|i: int| 0 <= i < levels.len() ==> (#[trigger] levels[i]).counts_base == if levels[i].counts.len() > 2 {
        offsets_end + counts_prefix(levels, i)
    } else {
        levels[i].dir_offset + slot_of(10)
    }
    &&& file_len == offsets_end + counts_prefix(levels, levels.len() as int)
}

/// The state of a writer, as plain values.
pub struct WriterModel {
    pub levels: Seq<LevelLayout>,
    pub codec: Codec,
    pub color_model: ColorModel,
    pub channels: u16,
    pub ycbcr_subsampling: (u16, u16),
    /// Length of the file the emitted writes produce.
    pub file_len: u64,
    /// Whether the header and directories have been emitted.
    pub initialized: bool,
}

impl WriterModel {
    pub open spec fn dir_size(self) -> int {
        dir_size(self.codec, self.color_model)
    }

    /// Every level valid, the color model matching the channels, and every
    /// directory and array inside the file, inline arrays pointing into
    /// their directory's value slots; before the first write, the levels
    /// are laid out canonically.
    #[verifier::opaque]
    pub open spec fn wf(self) -> bool {
        &&& self.levels.len() >= 1
        &&& self.color_model.matches_channels(self.channels)
        &&& forall|i: int|
            0 <= i < self.levels.len() ==> level_placed(#[trigger] self.levels[i], self.dir_size(), self.file_len as int)
        &&& !self.initialized ==> canonical_layout(self.levels, self.dir_size(), self.file_len as int)
        &&& !self.initialized ==> forall|i: int| 0 <= i < self.levels.len() ==> zeroed(#[trigger] self.levels[i])
    }
}

/// A level whose tile arrays are all zero: no tile written yet.
pub open spec fn zeroed(l: LevelLayout) -> bool {
    &&& forall|k: int| 0 <= k < l.offsets.len() ==> #[trigger] l.offsets[k] == 0
    &&& forall|k: int| 0 <= k < l.counts.len() ==> #[trigger] l.counts[k] == 0
}

/// A valid level whose directory and arrays lie inside a file of
/// `file_len` bytes whose directories take `dsize` bytes each.
pub open spec fn level_placed(l: LevelLayout, dsize: int, file_len: int) -> bool {
    &&& l.wf()
    &&& l.tile_count() <= usize::MAX
    &&& 16 <= l.dir_offset
    &&& l.dir_offset + dsize <= file_len
    &&& l.offsets.len() > 1 ==> l.offsets_base + 8 * l.offsets.len() <= file_len
    &&& l.offsets.len() <= 1 ==> l.offsets_base == l.dir_offset + slot_of(9)
    &&& l.counts.len() > 2 ==> l.counts_base + 4 * l.counts.len() <= file_len
    &&& l.counts.len() <= 2 ==> l.counts_base == l.dir_offset + slot_of(10)
    &&& l.offsets.len() > 1 ==> l.offsets_base % 8 == 0
    &&& l.counts.len() > 2 ==> l.counts_base % 8 == 0
}

proof fn lemma_wf_level(m: WriterModel, i: int)
    requires
        m.wf(),
        0 <= i < m.levels.len(),
    ensures
        level_placed(m.levels[i], m.dir_size(), m.file_len as int),
{
    reveal(WriterModel::wf);
}

proof fn lemma_wf_basics(m: WriterModel)
    requires
        m.wf(),
    ensures
        m.levels.len() >= 1,
        m.color_model.matches_channels(m.channels),
        !m.initialized ==> canonical_layout(m.levels, m.dir_size(), m.file_len as int),
        !m.initialized ==> forall|i: int| 0 <= i < m.levels.len() ==> zeroed(#[trigger] m.levels[i]),
{
    reveal(WriterModel::wf);
}

/// What a well-formed writer guarantees of each of its levels.
pub proof fn lemma_wf_level_pub(m: WriterModel, i: int)
    requires
        m.wf(),
        0 <= i < m.levels.len(),
    ensures
        level_placed(m.levels[i], m.dir_size(), m.file_len as int),
{
    lemma_wf_level(m, i);
}

/// What a well-formed writer guarantees of its parameters.
pub proof fn lemma_wf_basics_pub(m: WriterModel)
    requires
        m.wf(),
    ensures
        m.levels.len() >= 1,
        m.color_model.matches_channels(m.channels),
        !m.initialized ==> canonical_layout(m.levels, m.dir_size(), m.file_len as int),
        !m.initialized ==> forall|i: int| 0 <= i < m.levels.len() ==> zeroed(#[trigger] m.levels[i]),
{
    lemma_wf_basics(m);
}

pub proof fn lemma_wf_init_model(m: WriterModel)
    requires
        m.wf(),
    ensures
        initialized_model(m).wf(),
{
    reveal(WriterModel::wf);
}

/// Once initialized, a writer stays well formed when its file grows and
/// its levels keep their places.
proof fn lemma_wf_initialized(m: WriterModel, levels: Seq<LevelLayout>, file_len: int)
    requires
        m.wf(),
        m.file_len <= file_len <= u64::MAX,
        levels.len() >= 1,
        forall|i: int| 0 <= i < levels.len() ==> level_placed(#[trigger] levels[i], m.dir_size(), file_len),
    ensures
        (WriterModel { levels, file_len: file_len as u64, initialized: true, ..m }).wf(),
{
    reveal(WriterModel::wf);
}

/// Which levels a builder given only dimensions and a tile size derives.
#[derive(Debug, Clone, Copy, PartialEq, Eq)]
pub enum PyramidMode {
    /// The full-resolution level alone.
    SingleLevel,
    /// Halvings down to a level that fits in one tile.
    ToSingleTile,
    /// Halvings down to a 1x1 level.
    To1x1,
}

/// The Sans-IO writer.
#[derive(Debug)]
pub struct Writer {
    levels: Vec<LevelState>,
    codec: Codec,
    color_model: ColorModel,
    channels: u16,
    ycbcr_subsampling: (u16, u16),
    file_len: u64,
    initialized: bool,
}

spec fn layouts(levels: Seq<LevelState>) -> Seq<LevelLayout> {
    levels.map_values(|l: LevelState| l@)
}

impl View for Writer {
    type V = WriterModel;

    closed spec fn view(&self) -> WriterModel {
        WriterModel {
            levels: layouts(self.levels@),
            codec: self.codec,
            color_model: self.color_model,
            channels: self.channels,
            ycbcr_subsampling: self.ycbcr_subsampling,
            file_len: self.file_len,
            initialized: self.initialized,
        }
    }
}

impl Clone for Writer {
    fn clone(&self) -> (r: Self)
        ensures
            r@ == self@,
    {
        let mut levels: Vec<LevelState> = Vec::new();
        let mut i: usize = 0;
        while i < self.levels.len()
            invariant
                i <= self.levels@.len(),
                levels@.len() == i,
                forall|j: int| 0 <= j < i ==> (#[trigger] levels@[j])@ == self.levels@[j]@,
            decreases self.levels@.len() - i,
        {
            levels.push(self.levels[i].clone());
            i = i + 1;
        }
        assert(layouts(levels@) =~= layouts(self.levels@));
        Writer {
            levels,
            codec: self.codec,
            color_model: self.color_model,
            channels: self.channels,
            ycbcr_subsampling: self.ycbcr_subsampling,
            file_len: self.file_len,
            initialized: self.initialized,
        }
    }
}

fn has_ycbcr_entry(codec: Codec, color: ColorModel) -> (r: bool)
    ensures
        r == has_subsampling_entry(codec, color),
{
    match (codec, color) {
        (Codec::Jpeg, ColorModel::YCbCr) => true,
        _ => false,
    }
}

/// Bytes taken by the header, `n` directories and the referenced arrays of
/// the first `n` levels.
pub open spec fn layout_total(levels: Seq<LevelLayout>, dsize: int) -> int {
    arrays_start(levels.len() as int, dsize) + offsets_prefix(levels, levels.len() as int) + counts_prefix(
        levels,
        levels.len() as int,
    )
}

/// The fields of a level that do not depend on where it is placed.
pub open spec fn same_shape(a: LevelLayout, b: LevelLayout) -> bool {
    &&& a.width == b.width
    &&& a.height == b.height
    &&& a.tile_width == b.tile_width
    &&& a.tile_height == b.tile_height
    &&& a.tiles_across == b.tiles_across
    &&& a.tiles_down == b.tiles_down
    &&& a.offsets == b.offsets
    &&& a.counts == b.counts
}

/// Two level lists that differ at most in where their levels are placed.
pub open spec fn same_shapes(a: Seq<LevelLayout>, b: Seq<LevelLayout>) -> bool {
    &&& a.len() == b.len()
    &&& forall|i: int| 0 <= i < a.len() ==> same_shape(#[trigger] a[i], b[i])
}

pub proof fn lemma_prefix_nonneg_mono(levels: Seq<LevelLayout>, i: int, j: int)
    requires
        0 <= i <= j <= levels.len(),
    ensures
        0 <= offsets_prefix(levels, i) <= offsets_prefix(levels, j),
        0 <= counts_prefix(levels, i) <= counts_prefix(levels, j),
    decreases j,
{
    if j > 0 {
        if i < j {
            lemma_prefix_nonneg_mono(levels, i, j - 1);
        } else {
            lemma_prefix_nonneg_mono(levels, j - 1, j - 1);
        }
    }
}

proof fn lemma_prefix_shapes(a: Seq<LevelLayout>, b: Seq<LevelLayout>, i: int)
    requires
        0 <= i <= a.len(),
        a.len() == b.len(),
        forall|j: int| 0 <= j < i ==> (#[trigger] a[j]).offsets.len() == b[j].offsets.len() && a[j].counts.len()
            == b[j].counts.len(),
    ensures
        offsets_prefix(a, i) == offsets_prefix(b, i),
        counts_prefix(a, i) == counts_prefix(b, i),
    decreases i,
{
    if i > 0 {
        lemma_prefix_shapes(a, b, i - 1);
        assert(a[i - 1].offsets.len() == b[i - 1].offsets.len());
    }
}

proof fn lemma_layouts_update(levels: Seq<LevelState>, i: int, x: LevelState)
    requires
        0 <= i < levels.len(),
    ensures
        layouts(levels.update(i, x)) == layouts(levels).update(i, x@),
{
    assert(layouts(levels.update(i, x)) =~= layouts(levels).update(i, x@));
}

/// Computes the size of the canonical layout of `levels`, or `None` when it
/// does not fit in 64-bit offsets.
fn layout_end(levels: &Vec<LevelState>, dsize: u64) -> (r: Option<u64>)
    ensures
        r is Some <==> layout_total(layouts(levels@), dsize as int) <= u64::MAX,
        r matches Some(t) ==> t == layout_total(layouts(levels@), dsize as int),
{
    let ghost ls = layouts(levels@);
    proof {
        lemma_arrays_start(levels@.len() as int, dsize as int);
    }
    let n = levels.len();
    proof {
        lemma_prefix_nonneg_mono(ls, 0, n as int);
    }
    let mut total: u64 = 16;
    let mut i: usize = 0;
    while i < n
        invariant
            n == levels@.len(),
            ls == layouts(levels@),
            i <= n,
            total == 16 + i * dsize,
            16 + n * dsize <= arrays_start(n as int, dsize as int),
        decreases n - i,
    {
        match total.checked_add(dsize) {
            Some(t) => total = t,
            None => {
                proof {
                    lemma_prefix_nonneg_mono(ls, 0, n as int);
                    assert(i * dsize + dsize <= n * dsize) by (nonlinear_arith)
                        requires i < n, dsize >= 0;
                }
                return None;
            },
        }
        assert((i + 1) * dsize == i * dsize + dsize) by (nonlinear_arith);
        i = i + 1;
    }
    let pad: u64 = if total % 8 == 0 {
        0
    } else {
        8 - total % 8
    };
    proof {
        reveal(arrays_start);
    }
    total = match total.checked_add(pad) {
        Some(t) => t,
        None => {
            proof {
                lemma_prefix_nonneg_mono(ls, 0, n as int);
            }
            return None;
        },
    };
    assert(total == arrays_start(n as int, dsize as int));
    let mut extra: u64 = 0;
    i = 0;
    while i < n
        invariant
            n == levels@.len(),
            ls == layouts(levels@),
            i <= n,
            total == arrays_start(n as int, dsize as int),
            extra == offsets_prefix(ls, i as int),
        decreases n - i,
    {
        let k = levels[i].offsets.len();
        assert(ls[i as int] == levels@[i as int]@);
        if k > 1 {
            let add = match (k as u64).checked_mul(8) {
                Some(a) => a,
                None => {
                    proof {
                        lemma_prefix_nonneg_mono(ls, i as int + 1, n as int);
                        lemma_prefix_nonneg_mono(ls, 0, i as int);
                    }
                    return None;
                },
            };
            extra = match extra.checked_add(add) {
                Some(e) => e,
                None => {
                    proof {
                        lemma_prefix_nonneg_mono(ls, i as int + 1, n as int);
                    }
                    return None;
                },
            };
        }
        i = i + 1;
    }
    i = 0;
    while i < n
        invariant
            n == levels@.len(),
            ls == layouts(levels@),
            i <= n,
            total == arrays_start(n as int, dsize as int),
            extra == offsets_prefix(ls, n as int) + counts_prefix(ls, i as int),
        decreases n - i,
    {
        let k = levels[i].counts.len();
        assert(ls[i as int] == levels@[i as int]@);
        if k > 2 {
            assert(4 * k + 4 * (k % 2) == 8 * (k / 2 + k % 2)) by (nonlinear_arith);
            let add = match (k as u64 / 2 + (k as u64) % 2).checked_mul(8) {
                Some(a) => a,
                None => {
                    proof {
                        lemma_prefix_nonneg_mono(ls, i as int + 1, n as int);
                        lemma_prefix_nonneg_mono(ls, 0, i as int);
                    }
                    return None;
                },
            };
            extra = match extra.checked_add(add) {
                Some(e) => e,
                None => {
                    proof {
                        lemma_prefix_nonneg_mono(ls, i as int + 1, n as int);
                    }
                    return None;
                },
            };
        }
        i = i + 1;
    }
    total.checked_add(extra)
}

/// Places the levels of a file not yet written: directories after the
/// header, then the referenced offset arrays, then the referenced byte count
/// arrays.
fn assign_positions(levels: &mut Vec<LevelState>, dsize: u64)
    requires
        layout_total(layouts(old(levels)@), dsize as int) <= u64::MAX,
        dsize >= 236,
    ensures
        same_shapes(layouts(final(levels)@), layouts(old(levels)@)),
        canonical_layout(
            layouts(final(levels)@),
            dsize as int,
            layout_total(layouts(old(levels)@), dsize as int),
        ),
{
    let ghost orig = layouts(levels@);
    let n = levels.len();
    proof {
        lemma_prefix_nonneg_mono(orig, 0, n as int);
        assert(n * dsize >= 0) by (nonlinear_arith)
            requires dsize >= 0;
        lemma_arrays_start(n as int, dsize as int);
    }
    let mut cursor: u64 = 16;
    let mut i: usize = 0;
    while i < n
        invariant
            n == levels@.len(),
            orig.len() == n,
            i <= n,
            16 + n * dsize + offsets_prefix(orig, n as int) + counts_prefix(orig, n as int) <= u64::MAX,
            0 <= offsets_prefix(orig, n as int),
            0 <= counts_prefix(orig, n as int),
            cursor == 16 + i * dsize,
            same_shapes(layouts(levels@), orig),
            forall|j: int| 0 <= j < i ==> (#[trigger] layouts(levels@)[j]).dir_offset == 16 + j * dsize,
        decreases n - i,
    {
        assert(i * dsize + dsize <= n * dsize) by (nonlinear_arith)
            requires i < n, dsize >= 0;
        let ghost before = levels@;
        levels[i].dir_offset = cursor;
        proof {
            lemma_layouts_update(before, i as int, levels@[i as int]);
            assert(layouts(levels@) =~= layouts(before).update(i as int, levels@[i as int]@));
            assert(same_shape(layouts(levels@)[i as int], layouts(before)[i as int]));
        }
        cursor = cursor + dsize;
        assert((i + 1) * dsize == i * dsize + dsize) by (nonlinear_arith);
        i = i + 1;
    }
    let pad: u64 = if cursor % 8 == 0 {
        0
    } else {
        8 - cursor % 8
    };
    proof {
        reveal(arrays_start);
    }
    let arrays = cursor + pad;
    assert(arrays == arrays_start(n as int, dsize as int));
    cursor = arrays;
    i = 0;
    while i < n
        invariant
            n == levels@.len(),
            orig.len() == n,
            i <= n,
            dsize >= 236,
            arrays == arrays_start(n as int, dsize as int),
            arrays >= 16 + n * dsize,
            arrays + offsets_prefix(orig, n as int) + counts_prefix(orig, n as int) <= u64::MAX,
            0 <= offsets_prefix(orig, n as int),
            0 <= counts_prefix(orig, n as int),
            cursor == arrays + offsets_prefix(orig, i as int),
            same_shapes(layouts(levels@), orig),
            forall|j: int| 0 <= j < n ==> (#[trigger] layouts(levels@)[j]).dir_offset == 16 + j * dsize,
            forall|j: int| 0 <= j < i ==> (#[trigger] layouts(levels@)[j]).offsets_base == if orig[j].offsets.len() > 1 {
                arrays + offsets_prefix(orig, j)
            } else {
                layouts(levels@)[j].dir_offset + slot_of(9)
            },
        decreases n - i,
    {
        proof {
            lemma_prefix_nonneg_mono(orig, i as int + 1, n as int);
        }
        let ghost before = levels@;
        assert(layouts(before)[i as int] == before[i as int]@);
        let k = levels[i].offsets.len();
        if k > 1 {
            levels[i].offsets_base = cursor;
            cursor = cursor + (k as u64) * 8;
        } else {
            let d = levels[i].dir_offset;
            assert(i * dsize + dsize <= n * dsize) by (nonlinear_arith)
                requires i < n, dsize >= 0;
            levels[i].offsets_base = d + 200;
        }
        proof {
            lemma_layouts_update(before, i as int, levels@[i as int]);
            assert(layouts(levels@) =~= layouts(before).update(i as int, levels@[i as int]@));
            assert(same_shape(layouts(levels@)[i as int], layouts(before)[i as int]));
        }
        i = i + 1;
    }
    let offsets_end = cursor;
    i = 0;
    while i < n
        invariant
            n == levels@.len(),
            orig.len() == n,
            i <= n,
            dsize >= 236,
            arrays == arrays_start(n as int, dsize as int),
            arrays >= 16 + n * dsize,
            offsets_end == arrays + offsets_prefix(orig, n as int),
            offsets_end + counts_prefix(orig, n as int) <= u64::MAX,
            0 <= counts_prefix(orig, n as int),
            cursor == offsets_end + counts_prefix(orig, i as int),
            same_shapes(layouts(levels@), orig),
            forall|j: int| 0 <= j < n ==> (#[trigger] layouts(levels@)[j]).dir_offset == 16 + j * dsize,
            forall|j: int| 0 <= j < n ==> (#[trigger] layouts(levels@)[j]).offsets_base == if orig[j].offsets.len() > 1 {
                arrays + offsets_prefix(orig, j)
            } else {
                layouts(levels@)[j].dir_offset + slot_of(9)
            },
            forall|j: int| 0 <= j < i ==> (#[trigger] layouts(levels@)[j]).counts_base == if orig[j].counts.len() > 2 {
                offsets_end + counts_prefix(orig, j)
            } else {
                layouts(levels@)[j].dir_offset + slot_of(10)
            },
        decreases n - i,
    {
        proof {
            lemma_prefix_nonneg_mono(orig, i as int + 1, n as int);
        }
        let ghost before = levels@;
        assert(layouts(before)[i as int] == before[i as int]@);
        let k = levels[i].counts.len();
        if k > 2 {
            levels[i].counts_base = cursor;
            assert(4 * k + 4 * (k % 2) == 8 * (k / 2 + k % 2)) by (nonlinear_arith);
            cursor = cursor + (k as u64 / 2 + (k as u64) % 2) * 8;
        } else {
            let d = levels[i].dir_offset;
            assert(i * dsize + dsize <= n * dsize) by (nonlinear_arith)
                requires i < n, dsize >= 0;
            proof {
                lemma_prefix_nonneg_mono(orig, 0, n as int);
            }
            levels[i].counts_base = d + 220;
        }
        proof {
            lemma_layouts_update(before, i as int, levels@[i as int]);
            assert(layouts(levels@) =~= layouts(before).update(i as int, levels@[i as int]@));
            assert(same_shape(layouts(levels@)[i as int], layouts(before)[i as int]));
        }
        i = i + 1;
    }
    proof {
        let fin = layouts(levels@);
        assert forall|j: int| 0 <= j <= n implies offsets_prefix(fin, j) == offsets_prefix(orig, j) && counts_prefix(
            fin,
            j,
        ) == counts_prefix(orig, j) by {
            lemma_prefix_shapes(fin, orig, j);
        }
    }
}

/// The arrays of a file not yet written take whole multiples of 8 bytes.
proof fn lemma_prefixes_aligned(levels: Seq<LevelLayout>, i: int)
    ensures
        offsets_prefix(levels, i) % 8 == 0,
        counts_prefix(levels, i) % 8 == 0,
    decreases i,
{
    if i > 0 {
        lemma_prefixes_aligned(levels, i - 1);
        let k = levels[i - 1].counts.len() as int;
        assert((4 * k + 4 * (k % 2)) % 8 == 0) by (nonlinear_arith);
        assert((8 * (levels[i - 1].offsets.len() as int)) % 8 == 0) by (nonlinear_arith);
    }
}

/// The arrays of a file not yet written start at multiples of 8.
#[verifier::spinoff_prover]
proof fn lemma_canonical_aligned(levels: Seq<LevelLayout>, dsize: int, file_len: int, i: int)
    requires
        canonical_layout(levels, dsize, file_len),
        0 <= i < levels.len(),
    ensures
        levels[i].offsets.len() > 1 ==> levels[i].offsets_base % 8 == 0,
        levels[i].counts.len() > 2 ==> levels[i].counts_base % 8 == 0,
{
    let n = levels.len() as int;
    lemma_arrays_start(n, dsize);
    lemma_prefixes_aligned(levels, i);
    lemma_prefixes_aligned(levels, n);
}

#[verifier::spinoff_prover]
proof fn lemma_canonical_bounds(levels: Seq<LevelLayout>, dsize: int, file_len: int, i: int)
    requires
        canonical_layout(levels, dsize, file_len),
        0 <= i < levels.len(),
        dsize >= 236,
    ensures
        16 <= levels[i].dir_offset,
        levels[i].dir_offset + dsize <= file_len,
        levels[i].offsets.len() > 1 ==> levels[i].offsets_base + 8 * levels[i].offsets.len() <= file_len,
        levels[i].offsets.len() <= 1 ==> levels[i].offsets_base == levels[i].dir_offset + slot_of(9),
        levels[i].counts.len() > 2 ==> levels[i].counts_base + 4 * levels[i].counts.len() <= file_len,
        levels[i].counts.len() <= 2 ==> levels[i].counts_base == levels[i].dir_offset + slot_of(10),
{
    let n = levels.len() as int;
    lemma_arrays_start(n, dsize);
    lemma_prefix_nonneg_mono(levels, i + 1, n);
    lemma_prefix_nonneg_mono(levels, 0, n);
    lemma_prefix_nonneg_mono(levels, 0, i);
    assert(i * dsize + dsize <= n * dsize) by (nonlinear_arith)
        requires 0 <= i < n, dsize >= 0;
    assert(0 <= i * dsize) by (nonlinear_arith)
        requires 0 <= i, dsize >= 0;
}

/// The header of a file whose first directory follows it.
pub open spec fn header_bytes() -> Seq<u8> {
    header_magic() + u64_bytes(16)
}

/// Offset of the directory that follows level `i` in the chain, 0 for the
/// last.
pub open spec fn next_dir(levels: Seq<LevelLayout>, i: int) -> u64 {
    if i + 1 < levels.len() {
        levels[i + 1].dir_offset
    } else {
        0
    }
}

/// The directories of the first `k` levels, one after the other.
pub open spec fn dirs_bytes(m: WriterModel, k: int) -> Seq<u8>
    decreases k,
{
    if k <= 0 {
        Seq::empty()
    } else {
        dirs_bytes(m, k - 1) + spec_encode_directory(
            m.levels[k - 1],
            next_dir(m.levels, k - 1),
            m.codec,
            m.color_model,
            m.channels,
            m.ycbcr_subsampling,
        )
    }
}

/// Bytes taken by the referenced arrays of every level.
pub open spec fn arrays_size(levels: Seq<LevelLayout>) -> int {
    offsets_prefix(levels, levels.len() as int) + counts_prefix(levels, levels.len() as int)
}

/// Bytes after the directories of a file not yet written: zeros up to the
/// next multiple of 8, then the zeroed arrays.
pub open spec fn init_tail(m: WriterModel) -> int {
    arrays_start(m.levels.len() as int, m.dir_size()) - (16 + m.levels.len() * m.dir_size()) + arrays_size(m.levels)
}

/// The writes that create a file: the header, every directory, and zeros
/// up to the end of the arrays when the file runs past the directories.
pub open spec fn init_ops(m: WriterModel) -> Seq<OpModel> {
    let n = m.levels.len() as int;
    let base = seq![
        OpModel { offset: 0, bytes: header_bytes() },
        OpModel { offset: 16, bytes: dirs_bytes(m, n) },
    ];
    let tail = init_tail(m);
    if tail > 0 {
        base.push(OpModel { offset: (16 + n * m.dir_size()) as u64, bytes: zeros(tail) })
    } else {
        base
    }
}

/// Every level's dimensions fit the 32-bit width and height entries.
pub open spec fn dims_encodable(levels: Seq<LevelLayout>) -> bool {
    forall|i: int| 0 <= i < levels.len() ==> (#[trigger] levels[i]).width <= u32::MAX && levels[i].height <= u32::MAX
}

/// The model once the header and directories have been emitted.
pub open spec fn initialized_model(m: WriterModel) -> WriterModel {
    WriterModel { initialized: true, ..m }
}

fn push_zeros_u64(out: &mut Vec<u8>, n: u64)
    ensures
        final(out)@ == old(out)@ + zeros(n as int),
{
    let mut i: u64 = 0;
    while i < n
        invariant
            i <= n,
            out@ == old(out)@ + zeros(i as int),
        decreases n - i,
    {
        out.push(0);
        i = i + 1;
        assert(out@ =~= old(out)@ + zeros(i as int));
    }
}

fn header_vec() -> (r: Vec<u8>)
    ensures
        r@ == header_bytes(),
{
    let mut header: Vec<u8> = Vec::new();
    header.push(0x49);
    header.push(0x49);
    header.push(0x2b);
    header.push(0x00);
    header.push(0x08);
    header.push(0x00);
    header.push(0x00);
    header.push(0x00);
    push_u64(&mut header, 16);
    assert(header@ =~= header_bytes());
    header
}

impl Writer {
    /// The writer's invariant (see `WriterModel::wf`).
    pub open spec fn wf(&self) -> bool {
        self@.wf()
    }

    fn entry_count_dir_size(&self) -> (r: u64)
        ensures
            r == dir_size(self.codec, self.color_model),
            r >= 236,
    {
        if has_ycbcr_entry(self.codec, self.color_model) {
            256
        } else {
            236
        }
    }

    fn dims_fit(&self) -> (r: bool)
        ensures
            r == dims_encodable(self@.levels),
    {
        let n = self.levels.len();
        let mut i: usize = 0;
        while i < n
            invariant
                n == self.levels@.len(),
                i <= n,
                forall|j: int| 0 <= j < i ==> (#[trigger] layouts(self.levels@)[j]).width <= u32::MAX
                    && layouts(self.levels@)[j].height <= u32::MAX,
            decreases n - i,
        {
            assert(layouts(self.levels@)[i as int] == self.levels@[i as int]@);
            if self.levels[i].spec.dimensions.0 > 0xffff_ffff || self.levels[i].spec.dimensions.1 > 0xffff_ffff {
                return false;
            }
            i = i + 1;
        }
        true
    }

    fn encode_dirs(&self) -> (r: Vec<u8>)
        requires
            dims_encodable(self@.levels),
        ensures
            r@ == dirs_bytes(self@, self@.levels.len() as int),
    {
        let ghost m = self@;
        let n = self.levels.len();
        let mut dirs: Vec<u8> = Vec::new();
        let mut i: usize = 0;
        while i < n
            invariant
                n == self.levels@.len(),
                m == self@,
                dims_encodable(m.levels),
                i <= n,
                dirs@ == dirs_bytes(m, i as int),
            decreases n - i,
        {
            let next = if i + 1 < n {
                self.levels[i + 1].dir_offset
            } else {
                0
            };
            assert(m.levels[i as int] == self.levels@[i as int]@);
            assert(i + 1 < n ==> m.levels[i + 1] == self.levels@[i + 1]@);
            let mut dir = match encode_directory(
                &self.levels[i],
                next,
                self.codec,
                self.color_model,
                self.channels,
                self.ycbcr_subsampling,
            ) {
                Ok(d) => d,
                Err(_) => {
                    assert(false);
                    Vec::new()
                },
            };
            dirs.append(&mut dir);
            i = i + 1;
        }
        dirs
    }

    #[verifier::rlimit(40)]
    #[verifier::spinoff_prover]
    /// Emits the header, the directories and the zeroed arrays of a writer
    /// not yet initialized.
    fn emit_init(&mut self, batch: &mut WriteBatch)
        requires
            old(self).wf(),
            !old(self)@.initialized,
            dims_encodable(old(self)@.levels),
        ensures
            final(self)@ == initialized_model(old(self)@),
            final(batch)@ == old(batch)@ + init_ops(old(self)@),
    {
        let ghost m = self@;
        let dsize = self.entry_count_dir_size();
        let n = self.levels.len();
        let header = header_vec();
        batch.push(0, header);
        let dirs = self.encode_dirs();
        batch.push(16, dirs);
        proof {
            lemma_wf_basics(m);
            assert(canonical_layout(m.levels, m.dir_size(), m.file_len as int));
            assert(m.dir_size() == dsize);
            lemma_prefix_nonneg_mono(m.levels, 0, n as int);
            assert(n * dsize >= 0) by (nonlinear_arith)
                requires dsize >= 0;
        }
        proof {
            lemma_arrays_start(n as int, dsize as int);
        }
        let dirs_end: u64 = 16 + n as u64 * dsize;
        let pad: u64 = if dirs_end % 8 == 0 {
            0
        } else {
            8 - dirs_end % 8
        };
        proof {
            reveal(arrays_start);
        }
        assert(dirs_end + pad == arrays_start(n as int, dsize as int));
        let tail_len = self.file_len - dirs_end;
        assert(tail_len == init_tail(m));
        if tail_len > 0 {
            let mut tail: Vec<u8> = Vec::new();
            push_zeros_u64(&mut tail, tail_len);
            batch.push(dirs_end, tail);
        }
        self.initialized = true;
        assert(self@ =~= initialized_model(m));
        assert(final(batch)@ =~= old(batch)@ + init_ops(m));
    }

    /// Emits the file header and every directory, with zeroed tile arrays.
    pub fn init(&mut self) -> (r: Result<WriteBatch, Error>)
        requires
            old(self).wf(),
        ensures
            final(self).wf(),
            old(self)@.initialized ==> (r matches Err(e) && e == Error::InvalidInput("already initialized"))
                && final(self)@ == old(self)@,
            !old(self)@.initialized && !dims_encodable(old(self)@.levels) ==> (r matches Err(e) && e is Unsupported)
                && final(self)@ == old(self)@,
            !old(self)@.initialized && dims_encodable(old(self)@.levels) ==> (r matches Ok(b) && b@ == init_ops(
                old(self)@,
            )) && final(self)@ == initialized_model(old(self)@),
    {
        if self.initialized {
            return Err(Error::InvalidInput("already initialized"));
        }
        if !self.dims_fit() {
            return Err(Error::Unsupported("level dimensions exceed u32"));
        }
        let mut batch = WriteBatch::new();
        self.emit_init(&mut batch);
        assert(batch@ =~= init_ops(old(self)@));
        proof {
            lemma_wf_init_model(old(self)@);
        }
        Ok(batch)
    }

    /// Writes the payload of tile `coord` (column, row) of level 0.
    pub fn put_tile(&mut self, coord: (u64, u64), bytes: &[u8]) -> (r: Result<WriteBatch, Error>)
        requires
            old(self).wf(),
        ensures
            final(self).wf(),
            put_tile_outcome(old(self)@, 0, coord, bytes@, r, final(self)@),
    {
        self.put_tile_at_level(0, coord, bytes)
    }

    /// Writes the payload of tile `coord` (column, row) of level `level`:
    /// the payload goes at the end of the file, then the tile's byte count
    /// is patched, and its offset last. A writer not yet initialized emits
    /// the header and directories first.
    pub fn put_tile_at_level(&mut self, level: usize, coord: (u64, u64), bytes: &[u8]) -> (r: Result<
        WriteBatch,
        Error,
    >)
        requires
            old(self).wf(),
        ensures
            final(self).wf(),
            put_tile_outcome(old(self)@, level as int, coord, bytes@, r, final(self)@),
    {
        let ghost m = self@;
        if bytes.len() > 0xffff_ffff {
            return Err(Error::InvalidInput("tile payload exceeds u32::MAX"));
        }
        if level >= self.levels.len() {
            return Err(Error::InvalidInput("level index out of range"));
        }
        assert(m.levels[level as int] == self.levels@[level as int]@);
        let (col, row) = coord;
        let across = self.levels[level].tiles_across;
        let down = self.levels[level].tiles_down;
        if col >= across || row >= down {
            return Err(Error::InvalidInput("tile coordinate out of range"));
        }
        proof {
            assert(row * across + col < across * down) by (nonlinear_arith)
                requires row < down, col < across;
            lemma_wf_level(m, level as int);
        }
        let index = (row * across + col) as usize;
        if !self.initialized && !self.dims_fit() {
            return Err(Error::Unsupported("level dimensions exceed u32"));
        }
        let len = bytes.len() as u64;
        if self.file_len > u64::MAX - len {
            return Err(Error::InvalidInput("file length overflow"));
        }
        let mut batch = WriteBatch::new();
        if !self.initialized {
            self.emit_init(&mut batch);
        }
        let ghost mid = self@;
        assert(mid.levels == m.levels);
        let tile_offset = self.file_len;
        self.file_len = self.file_len + len;
        batch.push(tile_offset, vstd::slice::slice_to_vec(bytes));
        let ob = self.levels[level].offsets_base;
        let cb = self.levels[level].counts_base;
        assert(self.levels@[level as int]@ == m.levels[level as int]);
        assert(index < m.levels[level as int].offsets.len());
        batch.push(cb + index as u64 * 4, u32_vec(len as u32));
        batch.push(ob + index as u64 * 8, u64_vec(tile_offset));
        let ghost before = self.levels@;
        self.levels[level].offsets.set(index, tile_offset);
        self.levels[level].counts.set(index, len as u32);
        proof {
            lemma_layouts_update(before, level as int, self.levels@[level as int]);
            assert(layouts(self.levels@) =~= layouts(before).update(level as int, self.levels@[level as int]@));
            assert(self@ =~= tile_model(m, level as int, coord, len as int));
            lemma_tile_model_wf(m, level as int, coord, len as int);
            assert(tile_index(m.levels[level as int], coord) == index);
            assert(batch@ =~= (if m.initialized {
                Seq::empty()
            } else {
                init_ops(m)
            }) + tile_ops(m, level as int, coord, bytes@));
        }
        Ok(batch)
    }
}

/// Index of tile `coord` (column, row) in a level's tile arrays.
pub open spec fn tile_index(l: LevelLayout, coord: (u64, u64)) -> int {
    coord.1 * l.tiles_across + coord.0
}

/// A payload size and a tile that `put_tile_at_level` accepts.
pub open spec fn tile_target_ok(m: WriterModel, level: int, coord: (u64, u64), len: int) -> bool {
    &&& len <= u32::MAX
    &&& 0 <= level < m.levels.len()
    &&& coord.0 < m.levels[level].tiles_across
    &&& coord.1 < m.levels[level].tiles_down
}

/// The writes of a tile: its payload at the end of the file, then its
/// offset and byte count in the level's arrays.
pub open spec fn tile_ops(m: WriterModel, level: int, coord: (u64, u64), bytes: Seq<u8>) -> Seq<OpModel> {
    let l = m.levels[level];
    let i = tile_index(l, coord);
    seq![
        OpModel { offset: m.file_len, bytes },
        OpModel { offset: (l.counts_base + 4 * i) as u64, bytes: u32_bytes(bytes.len() as u32) },
        OpModel { offset: (l.offsets_base + 8 * i) as u64, bytes: u64_bytes(m.file_len) },
    ]
}

/// The writer once a tile of `len` bytes has been appended.
pub open spec fn tile_model(m: WriterModel, level: int, coord: (u64, u64), len: int) -> WriterModel {
    tile_model_at(m, level, coord, len, m.file_len)
}

/// The writer once `len` bytes have been appended and tile `coord` of
/// `level` records `len` bytes at offset `fo`.
pub open spec fn tile_model_at(m: WriterModel, level: int, coord: (u64, u64), len: int, fo: u64) -> WriterModel {
    let l = m.levels[level];
    let i = tile_index(l, coord);
    WriterModel {
        levels: m.levels.update(
            level,
            LevelLayout { offsets: l.offsets.update(i, fo), counts: l.counts.update(i, len as u32), ..l },
        ),
        file_len: (m.file_len + len) as u64,
        initialized: true,
        ..m
    }
}

proof fn lemma_tile_model_wf(m: WriterModel, level: int, coord: (u64, u64), len: int)
    requires
        m.wf(),
        tile_target_ok(m, level, coord, len),
        0 <= len,
        m.file_len + len <= u64::MAX,
    ensures
        tile_model(m, level, coord, len).wf(),
{
    let t = tile_model(m, level, coord, len);
    assert forall|i: int| 0 <= i < t.levels.len() implies level_placed(#[trigger] t.levels[i], t.dir_size(), t.file_len as int) by {
        lemma_wf_level(m, i);
        let a = m.levels[i];
        let b = t.levels[i];
        if i == level {
            let (c, r) = coord;
            assert(r * a.tiles_across + c < a.tiles_across * a.tiles_down) by (nonlinear_arith)
                requires r < a.tiles_down, c < a.tiles_across;
            assert(b.offsets.len() == a.offsets.len());
            assert(b.counts.len() == a.counts.len());
            assert(b.width == a.width && b.height == a.height && b.tile_width == a.tile_width && b.tile_height
                == a.tile_height);
        }
        assert(a.wf() ==> b.wf());
    }
    lemma_wf_initialized(m, t.levels, t.file_len as int);
    assert(t == WriterModel { levels: t.levels, file_len: t.file_len, initialized: true, ..m });
}

/// What `put_tile_at_level` returns and leaves behind, for every input.
pub open spec fn put_tile_outcome(
    m: WriterModel,
    level: int,
    coord: (u64, u64),
    bytes: Seq<u8>,
    r: Result<WriteBatch, Error>,
    after: WriterModel,
) -> bool {
    let len = bytes.len() as int;
    if !tile_target_ok(m, level, coord, len) {
        (r matches Err(e) && e is InvalidInput) && after == m
    } else if !m.initialized && !dims_encodable(m.levels) {
        (r matches Err(e) && e is Unsupported) && after == m
    } else if m.file_len + len > u64::MAX {
        (r matches Err(e) && e is InvalidInput) && after == m
    } else {
        &&& r matches Ok(b) && b@ == (if m.initialized {
            Seq::empty()
        } else {
            init_ops(m)
        }) + tile_ops(m, level, coord, bytes)
        &&& after == tile_model(m, level, coord, len)
    }
}

/// A level of `dims` pixels cut into `tile` tiles, with zeroed tile
/// arrays, before it is placed in the file.
pub open spec fn fresh_level(dims: (u64, u64), tile: (u32, u32)) -> LevelLayout {
    let g = spec_tile_grid(dims.0 as int, dims.1 as int, tile.0 as int, tile.1 as int);
    LevelLayout {
        width: dims.0,
        height: dims.1,
        tile_width: tile.0,
        tile_height: tile.1,
        tiles_across: g.0 as u64,
        tiles_down: g.1 as u64,
        dir_offset: 0,
        offsets_base: 0,
        counts_base: 0,
        offsets: Seq::new(g.2 as nat, |i: int| 0u64),
        counts: Seq::new(g.2 as nat, |i: int| 0u32),
    }
}

/// `after` is `m` with its levels replaced by `levels`, laid out anew as
/// for a file not yet written.
pub open spec fn relaid(m: WriterModel, levels: Seq<LevelLayout>, after: WriterModel) -> bool {
    &&& same_shapes(after.levels, levels)
    &&& canonical_layout(after.levels, m.dir_size(), after.file_len as int)
    &&& after == WriterModel { levels: after.levels, file_len: after.file_len, ..m }
}

/// A level that a writer can hold.
pub open spec fn level_holdable(l: LevelLayout) -> bool {
    l.wf() && l.tile_count() <= usize::MAX
}

proof fn lemma_relaid_wf(m: WriterModel, levels: Seq<LevelLayout>, after: WriterModel)
    requires
        relaid(m, levels, after),
        !m.initialized,
        levels.len() >= 1,
        m.color_model.matches_channels(m.channels),
        forall|i: int| 0 <= i < levels.len() ==> level_holdable(#[trigger] levels[i]),
        forall|i: int| 0 <= i < levels.len() ==> zeroed(#[trigger] levels[i]),
    ensures
        after.wf(),
{
    reveal(WriterModel::wf);
    assert forall|i: int| 0 <= i < after.levels.len() implies zeroed(#[trigger] after.levels[i]) by {
        assert(same_shape(after.levels[i], levels[i]));
        assert(zeroed(levels[i]));
    }
    assert(dir_size(m.codec, m.color_model) >= 236);
    assert forall|i: int| 0 <= i < after.levels.len() implies level_placed(
        #[trigger] after.levels[i],
        after.dir_size(),
        after.file_len as int,
    ) by {
        lemma_canonical_bounds(after.levels, after.dir_size(), after.file_len as int, i);
        lemma_canonical_aligned(after.levels, after.dir_size(), after.file_len as int, i);
        assert(same_shape(after.levels[i], levels[i]));
        assert(level_holdable(levels[i]));
    }
}

fn zero_vec_u64(n: usize) -> (r: Vec<u64>)
    ensures
        r@ == Seq::new(n as nat, |i: int| 0u64),
{
    let mut v: Vec<u64> = Vec::new();
    let mut i: usize = 0;
    while i < n
        invariant
            i <= n,
            v@ == Seq::new(i as nat, |j: int| 0u64),
        decreases n - i,
    {
        v.push(0);
        i = i + 1;
        assert(v@ =~= Seq::new(i as nat, |j: int| 0u64));
    }
    v
}

fn zero_vec_u32(n: usize) -> (r: Vec<u32>)
    ensures
        r@ == Seq::new(n as nat, |i: int| 0u32),
{
    let mut v: Vec<u32> = Vec::new();
    let mut i: usize = 0;
    while i < n
        invariant
            i <= n,
            v@ == Seq::new(i as nat, |j: int| 0u32),
        decreases n - i,
    {
        v.push(0);
        i = i + 1;
        assert(v@ =~= Seq::new(i as nat, |j: int| 0u32));
    }
    v
}

/// A fresh level for `spec`, or the reason it cannot be held: an invalid
/// spec, or more tiles than fit in memory.
fn fresh_state(dims: (u64, u64), tile: (u32, u32)) -> (r: Result<LevelState, Error>)
    ensures
        r is Ok <==> level_spec_valid(dims, tile) && fresh_level(dims, tile).tile_count() <= usize::MAX,
        r matches Ok(s) ==> s@ == fresh_level(dims, tile) && level_holdable(s@),
        r matches Err(e) ==> if level_spec_valid(dims, tile) {
            e is Unsupported
        } else {
            level_spec_error(dims, tile, e)
        },
{
    let spec = match LevelSpec::new(dims, tile) {
        Ok(s) => s,
        Err(e) => return Err(e),
    };
    let (across, down, count) = match tile_count(dims.0, dims.1, tile.0 as u64, tile.1 as u64) {
        Ok(t) => t,
        Err(e) => return Err(e),
    };
    if count > usize::MAX as u64 {
        return Err(Error::Unsupported("too many tiles for in-memory writer"));
    }
    let len = count as usize;
    let s = LevelState {
        spec,
        tiles_across: across,
        tiles_down: down,
        dir_offset: 0,
        offsets_base: 0,
        counts_base: 0,
        offsets: zero_vec_u64(len),
        counts: zero_vec_u32(len),
    };
    assert(s@.offsets =~= fresh_level(dims, tile).offsets);
    assert(s@.counts =~= fresh_level(dims, tile).counts);
    assert(s@ =~= fresh_level(dims, tile));
    Ok(s)
}

/// Lays out the levels of a file not yet written and returns the file's
/// length, or returns `None`, changing nothing, when the layout does not fit
/// in 64-bit offsets.
fn place_levels(levels: &mut Vec<LevelState>, dsize: u64) -> (r: Option<u64>)
    requires
        dsize >= 236,
    ensures
        r is Some <==> layout_total(layouts(old(levels)@), dsize as int) <= u64::MAX,
        r is None ==> final(levels)@ == old(levels)@,
        r matches Some(total) ==> same_shapes(layouts(final(levels)@), layouts(old(levels)@)) && canonical_layout(
            layouts(final(levels)@),
            dsize as int,
            total as int,
        ),
{
    match layout_end(levels, dsize) {
        None => None,
        Some(total) => {
            assign_positions(levels, dsize);
            Some(total)
        },
    }
}

/// The tile array of a grid of `across x down` tiles that keeps, at each
/// tile also present in the old `old_across x old_down` grid, the old
/// value, and `zero` elsewhere.
pub open spec fn resized<T>(old: Seq<T>, old_across: int, old_down: int, across: int, down: int, zero: T) -> Seq<T> {
    Seq::new(
        (across * down) as nat,
        |i: int|
            if i / across < old_down && i % across < old_across {
                old[(i / across) * old_across + i % across]
            } else {
                zero
            },
    )
}

/// Bytes appended when a level of an initialized file is resized to
/// `len` tiles: new arrays for those too large to stay in the directory.
pub open spec fn resize_growth(len: int) -> int {
    (if len > 1 {
        8 * len
    } else {
        0
    }) + (if len > 2 {
        4 * len
    } else {
        0
    })
}

/// Level `l` of an initialized file of `file_len` bytes, resized to `dims`:
/// same directory, tile arrays carried over to the new grid, and new arrays
/// at the end of the file where they do not fit in the directory.
pub open spec fn resized_level(l: LevelLayout, dims: (u64, u64), file_len: int) -> LevelLayout {
    let g = spec_tile_grid(dims.0 as int, dims.1 as int, l.tile_width as int, l.tile_height as int);
    let len = g.2;
    LevelLayout {
        width: dims.0,
        height: dims.1,
        tiles_across: g.0 as u64,
        tiles_down: g.1 as u64,
        offsets_base: if len > 1 {
            file_len as u64
        } else {
            (l.dir_offset + slot_of(9)) as u64
        },
        counts_base: if len > 2 {
            (file_len + (if len > 1 {
                8 * len
            } else {
                0
            })) as u64
        } else {
            (l.dir_offset + slot_of(10)) as u64
        },
        offsets: resized(l.offsets, l.tiles_across as int, l.tiles_down as int, g.0, g.1, 0u64),
        counts: resized(l.counts, l.tiles_across as int, l.tiles_down as int, g.0, g.1, 0u32),
        ..l
    }
}

/// The little-endian bytes of each value, one after the other.
pub open spec fn u64s_bytes(s: Seq<u64>) -> Seq<u8>
    decreases s.len(),
{
    if s.len() == 0 {
        Seq::empty()
    } else {
        u64s_bytes(s.drop_last()) + u64_bytes(s.last())
    }
}

/// The little-endian bytes of each value, one after the other.
pub open spec fn u32s_bytes(s: Seq<u32>) -> Seq<u8>
    decreases s.len(),
{
    if s.len() == 0 {
        Seq::empty()
    } else {
        u32s_bytes(s.drop_last()) + u32_bytes(s.last())
    }
}

/// `x` rounded up to a multiple of 8.
pub open spec fn align8(x: int) -> int {
    if x % 8 == 0 {
        x
    } else {
        x + (8 - x % 8)
    }
}

/// The arrays of level `l` that do not fit in its directory: the tile
/// offsets, then the byte counts.
pub open spec fn arrays_tail(l: LevelLayout) -> Seq<u8> {
    (if l.offsets.len() > 1 {
        u64s_bytes(l.offsets)
    } else {
        Seq::empty()
    }) + (if l.counts.len() > 2 {
        u32s_bytes(l.counts)
    } else {
        Seq::empty()
    })
}

/// Level `l` of an initialized file of `file_len` bytes, resized to `dims`
/// and written anew past the end of the file: the arrays that do not fit in
/// a directory from the next multiple of 8, then the directory.
pub open spec fn moved_level(l: LevelLayout, dims: (u64, u64), file_len: int) -> LevelLayout {
    let r = resized_level(l, dims, file_len);
    let len = r.offsets.len() as int;
    let a = align8(file_len);
    let dir = a + resize_growth(len);
    LevelLayout {
        dir_offset: dir as u64,
        offsets_base: if len > 1 {
            a as u64
        } else {
            (dir + slot_of(9)) as u64
        },
        counts_base: if len > 2 {
            (a + 8 * len) as u64
        } else {
            (dir + slot_of(10)) as u64
        },
        ..r
    }
}

/// The bytes that resizing level `level` appends: zeros up to the next
/// multiple of 8, the new arrays, then the new directory.
pub open spec fn resize_payload(m: WriterModel, level: int, dims: (u64, u64)) -> Seq<u8> {
    let nl = moved_level(m.levels[level], dims, m.file_len as int);
    zeros(align8(m.file_len as int) - m.file_len) + arrays_tail(nl) + spec_encode_directory(
        nl,
        next_dir(m.levels, level),
        m.codec,
        m.color_model,
        m.channels,
        m.ycbcr_subsampling,
    )
}

/// The writes that resize level `level` of an initialized file to `dims`:
/// the resized level appended, then the one pointer that leads to it.
pub open spec fn resize_ops(m: WriterModel, level: int, dims: (u64, u64)) -> Seq<OpModel> {
    let nl = moved_level(m.levels[level], dims, m.file_len as int);
    seq![
        OpModel { offset: m.file_len, bytes: resize_payload(m, level, dims) },
        OpModel { offset: link_to(m, level), bytes: u64_bytes(nl.dir_offset) },
    ]
}

/// The writer once level `level` of a written file is resized to `dims`.
pub open spec fn resized_model(m: WriterModel, level: int, dims: (u64, u64)) -> WriterModel {
    let nl = moved_level(m.levels[level], dims, m.file_len as int);
    WriterModel { levels: m.levels.update(level, nl), file_len: (nl.dir_offset + m.dir_size()) as u64, ..m }
}

/// What `set_dimensions` returns and leaves behind, for every input.
pub open spec fn set_dimensions_outcome(
    m: WriterModel,
    level: int,
    dims: (u64, u64),
    r: Result<WriteBatch, Error>,
    after: WriterModel,
) -> bool {
    if !(0 <= level < m.levels.len()) {
        (r matches Err(e) && e is InvalidInput) && after == m
    } else {
        let l = m.levels[level];
        let tile = (l.tile_width, l.tile_height);
        let fresh = fresh_level(dims, tile);
        if !level_spec_valid(dims, tile) {
            (r matches Err(e) && level_spec_error(dims, tile, e)) && after == m
        } else if fresh.tile_count() > usize::MAX {
            (r matches Err(e) && e is Unsupported) && after == m
        } else if !m.initialized {
            let levels = m.levels.update(level, fresh);
            if layout_total(levels, m.dir_size()) > u64::MAX {
                (r matches Err(e) && e is Unsupported) && after == m
            } else {
                (r matches Ok(b) && b@.len() == 0) && relaid(m, levels, after)
            }
        } else if align8(m.file_len as int) + resize_growth(fresh.tile_count()) + m.dir_size() > u64::MAX {
            (r matches Err(e) && e is InvalidInput) && after == m
        } else if dims.0 > u32::MAX || dims.1 > u32::MAX {
            (r matches Err(e) && e is Unsupported) && after == m
        } else {
            &&& r matches Ok(b) && b@ == resize_ops(m, level, dims)
            &&& after == resized_model(m, level, dims)
        }
    }
}

fn resized_vec<T: Copy>(old: &Vec<T>, old_across: u64, old_down: u64, across: u64, down: u64, len: usize, zero: T) -> (r: Vec<T>)
    requires
        across > 0,
        len == across * down,
        old@.len() == old_across * old_down,
    ensures
        r@ == resized(old@, old_across as int, old_down as int, across as int, down as int, zero),
{
    let mut out: Vec<T> = Vec::new();
    let old_len = old.len();
    let mut i: usize = 0;
    while i < len
        invariant
            across > 0,
            len == across * down,
            old@.len() == old_across * old_down,
            old_len == old@.len(),
            i <= len,
            out@.len() == i,
            forall|j: int| 0 <= j < i ==> out@[j] == resized(old@, old_across as int, old_down as int, across as int, down as int, zero)[j],
        decreases len - i,
    {
        let r = (i as u64) / across;
        let c = (i as u64) % across;
        if r < old_down && c < old_across {
            assert(r * old_across + c < old_across * old_down) by (nonlinear_arith)
                requires r < old_down, c < old_across;
            let k = r * old_across + c;
            out.push(old[k as usize]);
        } else {
            out.push(zero);
        }
        i = i + 1;
    }
    assert(out@ =~= resized(old@, old_across as int, old_down as int, across as int, down as int, zero));
    out
}

fn push_u64s(out: &mut Vec<u8>, values: &Vec<u64>)
    ensures
        final(out)@ == old(out)@ + u64s_bytes(values@),
{
    let mut i: usize = 0;
    while i < values.len()
        invariant
            i <= values@.len(),
            out@ == old(out)@ + u64s_bytes(values@.take(i as int)),
        decreases values@.len() - i,
    {
        assert(values@.take(i + 1).drop_last() =~= values@.take(i as int));
        push_u64(out, values[i]);
        i = i + 1;
        assert(out@ =~= old(out)@ + u64s_bytes(values@.take(i as int)));
    }
    assert(values@.take(values@.len() as int) =~= values@);
}

fn push_u32s(out: &mut Vec<u8>, values: &Vec<u32>)
    ensures
        final(out)@ == old(out)@ + u32s_bytes(values@),
{
    let mut i: usize = 0;
    while i < values.len()
        invariant
            i <= values@.len(),
            out@ == old(out)@ + u32s_bytes(values@.take(i as int)),
        decreases values@.len() - i,
    {
        assert(values@.take(i + 1).drop_last() =~= values@.take(i as int));
        push_u32(out, values[i]);
        i = i + 1;
        assert(out@ =~= old(out)@ + u32s_bytes(values@.take(i as int)));
    }
    assert(values@.take(values@.len() as int) =~= values@);
}

proof fn lemma_resized_wf(m: WriterModel, level: int, dims: (u64, u64))
    requires
        m.wf(),
        m.initialized,
        0 <= level < m.levels.len(),
        level_holdable(fresh_level(dims, (m.levels[level].tile_width, m.levels[level].tile_height))),
        align8(m.file_len as int) + resize_growth(
            fresh_level(dims, (m.levels[level].tile_width, m.levels[level].tile_height)).tile_count(),
        ) + m.dir_size() <= u64::MAX,
    ensures
        resized_model(m, level, dims).wf(),
{
    let l = m.levels[level];
    let fresh = fresh_level(dims, (l.tile_width, l.tile_height));
    let nl = moved_level(l, dims, m.file_len as int);
    let len = fresh.tile_count();
    let t = resized_model(m, level, dims);
    assert(len >= 0) by (nonlinear_arith)
        requires len == fresh.tiles_across * fresh.tiles_down, fresh.tiles_across >= 0, fresh.tiles_down >= 0;
    lemma_wf_basics(m);
    lemma_wf_level(m, 0);
    assert(m.dir_size() >= 236);
    assert forall|i: int| 0 <= i < t.levels.len() implies level_placed(#[trigger] t.levels[i], t.dir_size(), t.file_len as int) by {
        lemma_wf_level(m, i);
        if i == level {
            assert(nl.offsets.len() == len);
            assert(nl.counts.len() == len);
            assert(level_holdable(fresh));
        }
    }
    lemma_wf_initialized(m, t.levels, t.file_len as int);
}

impl Writer {
    /// Changes the dimensions of level `level`, keeping its tile size. Before
    /// the first write the levels are laid out anew. Afterwards the resized
    /// level is written anew past the end of the file (its arrays from the
    /// next multiple of 8, then its directory), tiles present in both grids
    /// keeping their payload, and the one pointer that leads to the level is
    /// switched to it last.
    pub fn set_dimensions(&mut self, level: usize, dimensions: (u64, u64)) -> (r: Result<WriteBatch, Error>)
        requires
            old(self).wf(),
        ensures
            final(self).wf(),
            set_dimensions_outcome(old(self)@, level as int, dimensions, r, final(self)@),
    {
        let ghost m = self@;
        if level >= self.levels.len() {
            return Err(Error::InvalidInput("level index out of range"));
        }
        assert(m.levels[level as int] == self.levels@[level as int]@);
        proof {
            lemma_wf_level(m, level as int);
            lemma_wf_basics(m);
        }
        let tile = self.levels[level].spec.tile_size;
        let fresh = match fresh_state(dimensions, tile) {
            Ok(s) => s,
            Err(e) => return Err(e),
        };
        let dsize = self.entry_count_dir_size();
        if !self.initialized {
            let ghost target = m.levels.update(level as int, fresh@);
            let mut levels: Vec<LevelState> = Vec::new();
            std::mem::swap(&mut levels, &mut self.levels);
            let ghost orig = levels@;
            let mut tmp = fresh;
            std::mem::swap(&mut levels[level], &mut tmp);
            proof {
                lemma_layouts_update(orig, level as int, levels@[level as int]);
            }
            assert(layouts(levels@) == target);
            match place_levels(&mut levels, dsize) {
                None => {
                    std::mem::swap(&mut levels[level], &mut tmp);
                    assert(levels@ =~= orig);
                    self.levels = levels;
                    return Err(Error::Unsupported("file layout exceeds 64-bit offsets"));
                },
                Some(total) => {
                    self.levels = levels;
                    self.file_len = total;
                    proof {
                        assert(relaid(m, target, self@));
                        assert forall|i: int| 0 <= i < target.len() implies level_holdable(#[trigger] target[i]) by {
                            if i != level {
                                lemma_wf_level(m, i);
                            }
                        }
                        assert forall|i: int| 0 <= i < target.len() implies zeroed(#[trigger] target[i]) by {
                            if i != level {
                                assert(zeroed(m.levels[i]));
                            }
                        }
                        lemma_relaid_wf(m, target, self@);
                    }
                    return Ok(WriteBatch::new());
                },
            }
        }
        self.resize_written(level, dimensions, tile, fresh, dsize)
    }

    #[verifier::spinoff_prover]
    #[verifier::rlimit(60)]
    fn resize_written(&mut self, level: usize, dimensions: (u64, u64), tile: (u32, u32), fresh: LevelState, dsize: u64)
        -> (r: Result<WriteBatch, Error>)
        requires
            old(self).wf(),
            old(self)@.initialized,
            level < old(self)@.levels.len(),
            tile == (old(self)@.levels[level as int].tile_width, old(self)@.levels[level as int].tile_height),
            fresh@ == fresh_level(dimensions, tile),
            level_spec_valid(dimensions, tile),
            level_holdable(fresh@),
            dsize == old(self)@.dir_size(),
        ensures
            final(self).wf(),
            set_dimensions_outcome(old(self)@, level as int, dimensions, r, final(self)@),
    {
        let ghost m = self@;
        proof {
            lemma_wf_level(m, level as int);
            lemma_wf_basics(m);
        }
        assert(m.levels[level as int] == self.levels@[level as int]@);
        let len = fresh.offsets.len();
        let osize: u64 = if len > 1 {
            match (len as u64).checked_mul(8) {
                Some(v) => v,
                None => return Err(Error::InvalidInput("file length overflow")),
            }
        } else {
            0
        };
        let csize: u64 = if len > 2 {
            match (len as u64).checked_mul(4) {
                Some(v) => v,
                None => return Err(Error::InvalidInput("file length overflow")),
            }
        } else {
            0
        };
        let file_len = self.file_len;
        let pad: u64 = if file_len % 8 == 0 {
            0
        } else {
            8 - file_len % 8
        };
        if file_len > u64::MAX - pad || file_len + pad > u64::MAX - osize || file_len + pad + osize > u64::MAX - csize
            || file_len + pad + osize + csize > u64::MAX - dsize {
            return Err(Error::InvalidInput("file length overflow"));
        }
        if dimensions.0 > 0xffff_ffff || dimensions.1 > 0xffff_ffff {
            return Err(Error::Unsupported("level dimensions exceed u32"));
        }
        let n = self.levels.len();
        let a = file_len + pad;
        let dir = a + osize + csize;
        let next = if level + 1 < n {
            self.levels[level + 1].dir_offset
        } else {
            0
        };
        let link = if level == 0 {
            8
        } else {
            proof {
                lemma_wf_level(m, level - 1);
            }
            self.levels[level - 1].dir_offset + dsize - 8
        };
        assert(level + 1 < n ==> m.levels[level + 1] == self.levels@[level + 1]@);
        assert(level > 0 ==> m.levels[level - 1] == self.levels@[level - 1]@);
        proof {
            lemma_div_ceil(dimensions.0 as int, tile.0 as int);
            assert(fresh.tiles_across > 0) by (nonlinear_arith)
                requires fresh.tiles_across * tile.0 >= dimensions.0, dimensions.0 > 0, tile.0 > 0;
            lemma_div_ceil(dimensions.1 as int, tile.1 as int);
            assert(fresh.tiles_down > 0) by (nonlinear_arith)
                requires fresh.tiles_down * tile.1 >= dimensions.1, dimensions.1 > 0, tile.1 > 0;
            assert(fresh.tiles_across * fresh.tiles_down >= 1) by (nonlinear_arith)
                requires fresh.tiles_across > 0, fresh.tiles_down > 0;
        }
        let new_offsets = resized_vec(
            &self.levels[level].offsets,
            self.levels[level].tiles_across,
            self.levels[level].tiles_down,
            fresh.tiles_across,
            fresh.tiles_down,
            len,
            0u64,
        );
        let new_counts = resized_vec(
            &self.levels[level].counts,
            self.levels[level].tiles_across,
            self.levels[level].tiles_down,
            fresh.tiles_across,
            fresh.tiles_down,
            len,
            0u32,
        );
        let offsets_base = if len > 1 {
            a
        } else {
            dir + 200
        };
        let counts_base = if len > 2 {
            a + osize
        } else {
            dir + 220
        };
        let state = LevelState {
            spec: fresh.spec,
            tiles_across: fresh.tiles_across,
            tiles_down: fresh.tiles_down,
            dir_offset: dir,
            offsets_base,
            counts_base,
            offsets: new_offsets,
            counts: new_counts,
        };
        let ghost nl = moved_level(m.levels[level as int], dimensions, m.file_len as int);
        assert(state@ =~= nl);
        let mut payload: Vec<u8> = Vec::new();
        push_zeros_u64(&mut payload, pad);
        if len > 1 {
            push_u64s(&mut payload, &state.offsets);
        }
        if len > 2 {
            push_u32s(&mut payload, &state.counts);
        }
        assert(payload@ =~= zeros(align8(m.file_len as int) - m.file_len) + arrays_tail(nl));
        let mut encoded = match encode_directory(
            &state,
            next,
            self.codec,
            self.color_model,
            self.channels,
            self.ycbcr_subsampling,
        ) {
            Ok(d) => d,
            Err(_) => {
                assert(false);
                Vec::new()
            },
        };
        payload.append(&mut encoded);
        let mut batch = WriteBatch::new();
        batch.push(file_len, payload);
        batch.push(link, u64_vec(dir));
        assert(batch@ =~= resize_ops(m, level as int, dimensions));
        let ghost before = self.levels@;
        self.levels.set(level, state);
        self.file_len = dir + dsize;
        proof {
            lemma_layouts_update(before, level as int, state);
            assert(self@ =~= resized_model(m, level as int, dimensions));
            lemma_resized_wf(m, level as int, dimensions);
        }
        Ok(batch)
    }
}

/// File offset of the pointer that leads to level `index`: the header's
/// first-directory pointer, or the next pointer of the level before it.
pub open spec fn link_to(m: WriterModel, index: int) -> u64 {
    if index == 0 {
        8
    } else {
        (m.levels[index - 1].dir_offset + m.dir_size() - 8) as u64
    }
}

/// The length of a written file once a fresh level is appended: its
/// directory, then zeros up to the next multiple of 8 and its zeroed arrays.
pub open spec fn added_len(m: WriterModel, fresh: LevelLayout) -> int {
    align8(m.file_len + m.dir_size()) + resize_growth(fresh.tile_count())
}

/// A fresh level placed at the end of an initialized file of `file_len`
/// bytes: its directory, then the arrays that do not fit in it from the
/// next multiple of 8.
pub open spec fn appended_level(fresh: LevelLayout, dsize: int, file_len: int) -> LevelLayout {
    let len = fresh.tile_count();
    let a = align8(file_len + dsize);
    LevelLayout {
        dir_offset: file_len as u64,
        offsets_base: if len > 1 {
            a as u64
        } else {
            (file_len + slot_of(9)) as u64
        },
        counts_base: if len > 2 {
            (a + 8 * len) as u64
        } else {
            (file_len + slot_of(10)) as u64
        },
        ..fresh
    }
}

/// The writes that insert a fresh level at `index` of an initialized file:
/// its directory and zeroed arrays at the end of the file, then the pointer
/// that now leads to it.
pub open spec fn add_level_ops(m: WriterModel, index: int, fresh: LevelLayout) -> Seq<OpModel> {
    let nl = appended_level(fresh, m.dir_size(), m.file_len as int);
    let next = if index < m.levels.len() {
        m.levels[index].dir_offset
    } else {
        0
    };
    seq![
        OpModel {
            offset: m.file_len,
            bytes: spec_encode_directory(nl, next, m.codec, m.color_model, m.channels, m.ycbcr_subsampling)
                + zeros(added_len(m, fresh) - m.file_len - m.dir_size()),
        },
        OpModel { offset: link_to(m, index), bytes: u64_bytes(m.file_len) },
    ]
}

/// What `add_level` returns and leaves behind, for every input.
pub open spec fn add_level_outcome(
    m: WriterModel,
    index: int,
    spec: ((u64, u64), (u32, u32)),
    r: Result<WriteBatch, Error>,
    after: WriterModel,
) -> bool {
    let (dims, tile) = spec;
    let fresh = fresh_level(dims, tile);
    if !(0 <= index <= m.levels.len()) {
        (r matches Err(e) && e is InvalidInput) && after == m
    } else if !level_spec_valid(dims, tile) {
        (r matches Err(e) && level_spec_error(dims, tile, e)) && after == m
    } else if fresh.tile_count() > usize::MAX {
        (r matches Err(e) && e is Unsupported) && after == m
    } else if !m.initialized {
        let levels = m.levels.insert(index, fresh);
        if layout_total(levels, m.dir_size()) > u64::MAX {
            (r matches Err(e) && e is Unsupported) && after == m
        } else {
            (r matches Ok(b) && b@.len() == 0) && relaid(m, levels, after)
        }
    } else if dims.0 > u32::MAX || dims.1 > u32::MAX {
        (r matches Err(e) && e is Unsupported) && after == m
    } else if added_len(m, fresh) > u64::MAX {
        (r matches Err(e) && e is InvalidInput) && after == m
    } else {
        &&& r matches Ok(b) && b@ == add_level_ops(m, index, fresh)
        &&& after == WriterModel {
            levels: m.levels.insert(index, appended_level(fresh, m.dir_size(), m.file_len as int)),
            file_len: added_len(m, fresh) as u64,
            ..m
        }
    }
}

/// What `remove_level` returns and leaves behind, for every input.
pub open spec fn remove_level_outcome(m: WriterModel, index: int, r: Result<WriteBatch, Error>, after: WriterModel) -> bool {
    if m.levels.len() <= 1 || !(0 <= index < m.levels.len()) {
        (r matches Err(e) && e is InvalidInput) && after == m
    } else if !m.initialized {
        (r matches Ok(b) && b@.len() == 0) && relaid(m, m.levels.remove(index), after)
    } else {
        &&& r matches Ok(b) && b@ == seq![OpModel { offset: link_to(m, index), bytes: u64_bytes(next_dir(m.levels, index)) }]
        &&& after == WriterModel { levels: m.levels.remove(index), ..m }
    }
}

proof fn lemma_prefix_remove(s: Seq<LevelLayout>, k: int, i: int)
    requires
        0 <= k < s.len(),
        0 <= i <= s.len(),
    ensures
        i <= k ==> offsets_prefix(s.remove(k), i) == offsets_prefix(s, i) && counts_prefix(s.remove(k), i)
            == counts_prefix(s, i),
        i > k ==> offsets_prefix(s.remove(k), i - 1) + offsets_array_size(s[k]) == offsets_prefix(s, i)
            && counts_prefix(s.remove(k), i - 1) + counts_array_size(s[k]) == counts_prefix(s, i),
    decreases i,
{
    if i > 0 {
        lemma_prefix_remove(s, k, i - 1);
        if i - 1 > k {
            assert(s.remove(k)[i - 2] == s[i - 1]);
        } else if i - 1 < k {
            assert(s.remove(k)[i - 1] == s[i - 1]);
        }
    }
}

proof fn lemma_remove_fits(s: Seq<LevelLayout>, k: int, dsize: int)
    requires
        0 <= k < s.len(),
        dsize >= 0,
    ensures
        layout_total(s.remove(k), dsize) <= layout_total(s, dsize),
{
    lemma_prefix_remove(s, k, s.len() as int);
    let n = s.len() as int;
    lemma_arrays_start_mono(n - 1, n, dsize);
}

impl Writer {
    /// Unlinks level `index` from the directory chain. Before the first
    /// write the remaining levels are laid out anew; afterwards only the
    /// pointer that led to the level is patched, and its bytes stay in the
    /// file unreferenced.
    pub fn remove_level(&mut self, index: usize) -> (r: Result<WriteBatch, Error>)
        requires
            old(self).wf(),
        ensures
            final(self).wf(),
            remove_level_outcome(old(self)@, index as int, r, final(self)@),
    {
        let ghost m = self@;
        let n = self.levels.len();
        if n <= 1 {
            return Err(Error::InvalidInput("cannot remove the only level"));
        }
        if index >= n {
            return Err(Error::InvalidInput("level index out of range"));
        }
        proof {
            lemma_wf_basics(m);
        }
        let dsize = self.entry_count_dir_size();
        if !self.initialized {
            let mut levels: Vec<LevelState> = Vec::new();
            std::mem::swap(&mut levels, &mut self.levels);
            let ghost orig = levels@;
            let removed = levels.remove(index);
            let ghost target = m.levels.remove(index as int);
            assert(layouts(levels@) =~= target);
            proof {
                lemma_remove_fits(m.levels, index as int, dsize as int);
                lemma_prefix_nonneg_mono(m.levels, 0, n as int);
            }
            match place_levels(&mut levels, dsize) {
                None => {
                    assert(false);
                    levels.insert(index, removed);
                    self.levels = levels;
                    return Err(Error::Unsupported("file layout exceeds 64-bit offsets"));
                },
                Some(total) => {
                    self.levels = levels;
                    self.file_len = total;
                    proof {
                        assert(relaid(m, target, self@));
                        assert forall|i: int| 0 <= i < target.len() implies level_holdable(#[trigger] target[i]) by {
                            if i < index {
                                lemma_wf_level(m, i);
                            } else {
                                lemma_wf_level(m, i + 1);
                            }
                        }
                        assert forall|i: int| 0 <= i < target.len() implies zeroed(#[trigger] target[i]) by {
                            if i < index {
                                assert(zeroed(m.levels[i]));
                            } else {
                                assert(zeroed(m.levels[i + 1]));
                            }
                        }
                        lemma_relaid_wf(m, target, self@);
                    }
                    return Ok(WriteBatch::new());
                },
            }
        }
        let next = if index + 1 < n {
            self.levels[index + 1].dir_offset
        } else {
            0
        };
        let link = if index == 0 {
            8
        } else {
            proof {
                lemma_wf_level(m, index - 1);
            }
            self.levels[index - 1].dir_offset + dsize - 8
        };
        let mut batch = WriteBatch::new();
        batch.push(link, u64_vec(next));
        assert(index + 1 < n ==> m.levels[index + 1] == self.levels@[index + 1]@);
        assert(index > 0 ==> m.levels[index - 1] == self.levels@[index - 1]@);
        assert(batch@ =~= seq![OpModel { offset: link_to(m, index as int), bytes: u64_bytes(next_dir(m.levels, index as int)) }]);
        let ghost before = self.levels@;
        let _removed = self.levels.remove(index);
        proof {
            assert(layouts(self.levels@) =~= layouts(before).remove(index as int));
            let t = WriterModel { levels: m.levels.remove(index as int), ..m };
            assert(self@ == t);
            assert forall|i: int| 0 <= i < t.levels.len() implies level_placed(#[trigger] t.levels[i], t.dir_size(), t.file_len as int) by {
                if i < index {
                    lemma_wf_level(m, i);
                } else {
                    lemma_wf_level(m, i + 1);
                }
            }
            lemma_wf_initialized(m, t.levels, t.file_len as int);
            assert(t == WriterModel { levels: t.levels, file_len: t.file_len, initialized: true, ..m });
        }
        Ok(batch)
    }
}

proof fn lemma_appended_wf(m: WriterModel, index: int, fresh: LevelLayout)
    requires
        m.wf(),
        m.initialized,
        0 <= index <= m.levels.len(),
        level_holdable(fresh),
        added_len(m, fresh) <= u64::MAX,
    ensures
        (WriterModel {
            levels: m.levels.insert(index, appended_level(fresh, m.dir_size(), m.file_len as int)),
            file_len: added_len(m, fresh) as u64,
            ..m
        }).wf(),
{
    let nl = appended_level(fresh, m.dir_size(), m.file_len as int);
    let t = WriterModel {
        levels: m.levels.insert(index, nl),
        file_len: added_len(m, fresh) as u64,
        ..m
    };
    lemma_wf_basics(m);
    lemma_wf_level(m, 0);
    let len = fresh.tile_count();
    assert(len >= 0) by (nonlinear_arith)
        requires len == fresh.tiles_across * fresh.tiles_down, fresh.tiles_across >= 0, fresh.tiles_down >= 0;
    assert(m.dir_size() >= 236);
    assert forall|i: int| 0 <= i < t.levels.len() implies level_placed(#[trigger] t.levels[i], t.dir_size(), t.file_len as int) by {
        if i < index {
            lemma_wf_level(m, i);
        } else if i > index {
            lemma_wf_level(m, i - 1);
        }
    }
    lemma_wf_initialized(m, t.levels, t.file_len as int);
    assert(t == WriterModel { levels: t.levels, file_len: t.file_len, initialized: true, ..m });
}

impl Writer {
    /// Inserts a level at position `index` of the chain. Before the first
    /// write the levels are laid out anew; afterwards the level's directory
    /// and zeroed arrays (from the next multiple of 8) are appended to the
    /// file and the pointer before it is patched to lead to it.
    pub fn add_level(&mut self, index: usize, spec: LevelSpec) -> (r: Result<WriteBatch, Error>)
        requires
            old(self).wf(),
        ensures
            final(self).wf(),
            add_level_outcome(old(self)@, index as int, spec@, r, final(self)@),
    {
        let ghost m = self@;
        let n = self.levels.len();
        if index > n {
            return Err(Error::InvalidInput("insertion index out of range"));
        }
        proof {
            lemma_wf_basics(m);
        }
        let fresh = match fresh_state(spec.dimensions, spec.tile_size) {
            Ok(s) => s,
            Err(e) => return Err(e),
        };
        if !self.initialized {
            self.add_level_unwritten(index, spec, fresh)
        } else {
            self.add_level_written(index, spec, fresh)
        }
    }

    #[verifier::spinoff_prover]
    #[verifier::rlimit(30)]
    fn add_level_unwritten(&mut self, index: usize, spec: LevelSpec, fresh: LevelState) -> (r: Result<WriteBatch, Error>)
        requires
            old(self).wf(),
            !old(self)@.initialized,
            index <= old(self)@.levels.len(),
            fresh@ == fresh_level(spec@.0, spec@.1),
            level_spec_valid(spec@.0, spec@.1),
            level_holdable(fresh@),
        ensures
            final(self).wf(),
            add_level_outcome(old(self)@, index as int, spec@, r, final(self)@),
    {
        let ghost m = self@;
        proof {
            lemma_wf_basics(m);
        }
        let dsize = self.entry_count_dir_size();
        let ghost target = m.levels.insert(index as int, fresh@);
        let mut levels: Vec<LevelState> = Vec::new();
        std::mem::swap(&mut levels, &mut self.levels);
        let ghost orig = levels@;
        levels.insert(index, fresh);
        assert(layouts(levels@) =~= target);
        match place_levels(&mut levels, dsize) {
            None => {
                let _ = levels.remove(index);
                assert(levels@ =~= orig);
                self.levels = levels;
                return Err(Error::Unsupported("file layout exceeds 64-bit offsets"));
            },
            Some(total) => {
                self.levels = levels;
                self.file_len = total;
                proof {
                    assert(relaid(m, target, self@));
                    assert forall|i: int| 0 <= i < target.len() implies level_holdable(#[trigger] target[i]) by {
                        if i < index {
                            lemma_wf_level(m, i);
                        } else if i > index {
                            lemma_wf_level(m, i - 1);
                        }
                    }
                    assert forall|i: int| 0 <= i < target.len() implies zeroed(#[trigger] target[i]) by {
                        if i < index {
                            assert(zeroed(m.levels[i]));
                        } else if i > index {
                            assert(zeroed(m.levels[i - 1]));
                        }
                    }
                    lemma_relaid_wf(m, target, self@);
                }
                return Ok(WriteBatch::new());
            },
        }
    }

    #[verifier::rlimit(30)]
    fn add_level_written(&mut self, index: usize, spec: LevelSpec, fresh: LevelState) -> (r: Result<WriteBatch, Error>)
        requires
            old(self).wf(),
            old(self)@.initialized,
            index <= old(self)@.levels.len(),
            fresh@ == fresh_level(spec@.0, spec@.1),
            level_spec_valid(spec@.0, spec@.1),
            level_holdable(fresh@),
        ensures
            final(self).wf(),
            add_level_outcome(old(self)@, index as int, spec@, r, final(self)@),
    {
        let ghost m = self@;
        proof {
            lemma_wf_basics(m);
        }
        let n = self.levels.len();
        let dsize = self.entry_count_dir_size();
        if spec.dimensions.0 > 0xffff_ffff || spec.dimensions.1 > 0xffff_ffff {
            return Err(Error::Unsupported("level dimensions exceed u32"));
        }
        let len = fresh.offsets.len();
        let osize: u64 = if len > 1 {
            match (len as u64).checked_mul(8) {
                Some(v) => v,
                None => return Err(Error::InvalidInput("file length overflow")),
            }
        } else {
            0
        };
        let csize: u64 = if len > 2 {
            match (len as u64).checked_mul(4) {
                Some(v) => v,
                None => return Err(Error::InvalidInput("file length overflow")),
            }
        } else {
            0
        };
        if self.file_len > u64::MAX - dsize {
            return Err(Error::InvalidInput("file length overflow"));
        }
        let dirs_end = self.file_len + dsize;
        let pad: u64 = if dirs_end % 8 == 0 {
            0
        } else {
            8 - dirs_end % 8
        };
        assert(dirs_end + pad == align8(dirs_end as int));
        if dirs_end > u64::MAX - pad || dirs_end + pad > u64::MAX - osize || dirs_end + pad + osize > u64::MAX - csize {
            return Err(Error::InvalidInput("file length overflow"));
        }
        let arrays = dirs_end + pad;
        let new_dir = self.file_len;
        let next = if index < n {
            self.levels[index].dir_offset
        } else {
            0
        };
        let link = if index == 0 {
            8
        } else {
            proof {
                lemma_wf_level(m, index - 1);
            }
            self.levels[index - 1].dir_offset + dsize - 8
        };
        assert(index < n ==> m.levels[index as int] == self.levels@[index as int]@);
        assert(index > 0 ==> m.levels[index - 1] == self.levels@[index - 1]@);
        let mut state = fresh;
        state.dir_offset = new_dir;
        state.offsets_base = if len > 1 {
            arrays
        } else {
            new_dir + 200
        };
        state.counts_base = if len > 2 {
            arrays + osize
        } else {
            new_dir + 220
        };
        let ghost nl = appended_level(fresh_level(spec@.0, spec@.1), m.dir_size(), m.file_len as int);
        assert(state@ =~= nl);
        let mut payload = match encode_directory(
            &state,
            next,
            self.codec,
            self.color_model,
            self.channels,
            self.ycbcr_subsampling,
        ) {
            Ok(d) => d,
            Err(_) => {
                assert(false);
                Vec::new()
            },
        };
        push_zeros_u64(&mut payload, pad + osize + csize);
        let mut batch = WriteBatch::new();
        batch.push(new_dir, payload);
        batch.push(link, u64_vec(new_dir));
        assert(batch@ =~= add_level_ops(m, index as int, fresh_level(spec@.0, spec@.1)));
        let ghost before = self.levels@;
        self.levels.insert(index, state);
        self.file_len = arrays + osize + csize;
        proof {
            assert(layouts(self.levels@) =~= layouts(before).insert(index as int, nl));
            lemma_appended_wf(m, index as int, fresh_level(spec@.0, spec@.1));
        }
        Ok(batch)
    }
}

impl Writer {
    /// Number of levels.
    pub fn level_count(&self) -> (r: usize)
        ensures
            r == self@.levels.len(),
    {
        self.levels.len()
    }

    /// Dimensions of level `level`.
    pub fn level_dimensions(&self, level: usize) -> (r: Result<(u64, u64), Error>)
        ensures
            r is Ok <==> level < self@.levels.len(),
            r matches Ok(d) ==> d == (self@.levels[level as int].width, self@.levels[level as int].height),
            r matches Err(e) ==> e is InvalidInput,
    {
        if level >= self.levels.len() {
            return Err(Error::InvalidInput("level index out of range"));
        }
        assert(self@.levels[level as int] == self.levels@[level as int]@);
        Ok(self.levels[level].spec.dimensions)
    }

    /// Tile size of level `level`.
    pub fn level_tile_size(&self, level: usize) -> (r: Result<(u32, u32), Error>)
        ensures
            r is Ok <==> level < self@.levels.len(),
            r matches Ok(t) ==> t == (self@.levels[level as int].tile_width, self@.levels[level as int].tile_height),
            r matches Err(e) ==> e is InvalidInput,
    {
        if level >= self.levels.len() {
            return Err(Error::InvalidInput("level index out of range"));
        }
        assert(self@.levels[level as int] == self.levels@[level as int]@);
        Ok(self.levels[level].spec.tile_size)
    }

    /// Tile grid `(across, down)` of level `level`.
    pub fn level_tile_grid(&self, level: usize) -> (r: Result<(u64, u64), Error>)
        ensures
            r is Ok <==> level < self@.levels.len(),
            r matches Ok(g) ==> g == (self@.levels[level as int].tiles_across, self@.levels[level as int].tiles_down),
            r matches Err(e) ==> e is InvalidInput,
    {
        if level >= self.levels.len() {
            return Err(Error::InvalidInput("level index out of range"));
        }
        assert(self@.levels[level as int] == self.levels@[level as int]@);
        Ok((self.levels[level].tiles_across, self.levels[level].tiles_down))
    }
}

/// `ceil(x / 2)`.
pub open spec fn half_up(x: u64) -> u64 {
    (x / 2 + x % 2) as u64
}

/// The dimensions obtained by halving `d`, rounding up, until they fit in
/// `stop`.
pub open spec fn halvings(d: (u64, u64), stop: (u64, u64)) -> Seq<(u64, u64)>
    decreases d.0 + d.1,
    when stop.0 >= 1 && stop.1 >= 1
{
    if d.0 > stop.0 || d.1 > stop.1 {
        let h = (half_up(d.0), half_up(d.1));
        seq![h] + halvings(h, stop)
    } else {
        Seq::empty()
    }
}

/// The dimensions of the levels a builder derives from `dims` and `tile`:
/// the full-resolution level, then its halvings as the mode asks.
pub open spec fn pyramid_dims(dims: (u64, u64), tile: (u32, u32), mode: PyramidMode) -> Seq<(u64, u64)> {
    seq![dims] + match mode {
        PyramidMode::SingleLevel => Seq::empty(),
        PyramidMode::ToSingleTile => halvings(dims, (tile.0 as u64, tile.1 as u64)),
        PyramidMode::To1x1 => halvings(dims, (1, 1)),
    }
}

/// Each size in a run of halvings halves the one before, rounding up, and
/// a run that halves at all changes the size at its first step.
proof fn lemma_halvings_halve(d: (u64, u64), stop: (u64, u64))
    requires
        stop.0 >= 1,
        stop.1 >= 1,
    ensures
        ({
            let s = seq![d] + halvings(d, stop);
            &&& forall|i: int| 0 <= i < s.len() - 1 ==> 2 * (#[trigger] s[i + 1]).0 - 1 <= s[i].0 <= 2 * s[i + 1].0
                && 2 * s[i + 1].1 - 1 <= s[i].1 <= 2 * s[i + 1].1
            &&& s.len() >= 2 ==> s[1] != s[0]
        }),
    decreases d.0 + d.1,
{
    let s = seq![d] + halvings(d, stop);
    if d.0 > stop.0 || d.1 > stop.1 {
        let h = (half_up(d.0), half_up(d.1));
        assert(h.0 < d.0 || h.1 < d.1);
        lemma_halvings_halve(h, stop);
        let t = seq![h] + halvings(h, stop);
        assert(s =~= seq![d] + t);
        assert forall|i: int| 0 <= i < s.len() - 1 implies 2 * (#[trigger] s[i + 1]).0 - 1 <= s[i].0 <= 2 * s[i
            + 1].0 && 2 * s[i + 1].1 - 1 <= s[i].1 <= 2 * s[i + 1].1 by {
            if i > 0 {
                assert(s[i] == t[i - 1] && s[i + 1] == t[i]);
                assert(0 <= i - 1 < t.len() - 1);
                assert(t[(i - 1) + 1] == t[i]);
                assert(2 * t[i].0 - 1 <= t[i - 1].0 <= 2 * t[i].0);
                assert(2 * t[i].1 - 1 <= t[i - 1].1 <= 2 * t[i].1);
            } else {
                assert(s[0] == d && s[1] == h);
                assert(2 * h.0 - 1 <= d.0 <= 2 * h.0);
                assert(2 * h.1 - 1 <= d.1 <= 2 * h.1);
            }
        }
    } else {
        assert(s.len() == 1);
    }
}

/// The levels a builder derives, in any pyramid mode, are classified as a
/// pyramid: each halves the one before, rounding up, and a chain of two or
/// more derived levels is not all of one size.
pub proof fn lemma_pyramid_dims_classify(levels: Seq<LevelModel>, dims: (u64, u64), tile: (u32, u32), mode: PyramidMode)
    requires
        tile.0 >= 1,
        tile.1 >= 1,
        levels.len() == pyramid_dims(dims, tile, mode).len(),
        forall|i: int| 0 <= i < levels.len() ==> ((#[trigger] levels[i]).width, levels[i].height) == pyramid_dims(
            dims,
            tile,
            mode,
        )[i],
    ensures
        spec_classify(levels) == ChainKind::Pyramid,
{
    let s = pyramid_dims(dims, tile, mode);
    match mode {
        PyramidMode::SingleLevel => {
            assert(s.len() == 1);
        },
        PyramidMode::ToSingleTile => {
            lemma_halvings_halve(dims, (tile.0 as u64, tile.1 as u64));
        },
        PyramidMode::To1x1 => {
            lemma_halvings_halve(dims, (1, 1));
        },
    }
    lemma_classify_by_sizes(levels);
    if levels.len() >= 2 {
        assert(levels[1].width != levels[0].width || levels[1].height != levels[0].height) by {
            assert(s[1] != s[0]);
        }
        assert forall|i: int| 0 <= i < levels.len() - 1 implies 2 * (#[trigger] levels[i + 1]).width - 1
            <= levels[i].width <= 2 * levels[i + 1].width && 2 * levels[i + 1].height - 1 <= levels[i].height <= 2
            * levels[i + 1].height by {
            assert(s[i + 1] == (levels[i + 1].width, levels[i + 1].height));
            assert(s[i] == (levels[i].width, levels[i].height));
        }
    }
}

proof fn lemma_half_valid(d: (u64, u64), tile: (u32, u32))
    requires
        level_spec_valid(d, tile),
    ensures
        level_spec_valid((half_up(d.0), half_up(d.1)), tile),
{
    let h = (half_up(d.0), half_up(d.1));
    let (tw, th) = (tile.0 as int, tile.1 as int);
    lemma_div_mono(h.0 + tw - 1, d.0 + tw - 1, tw);
    lemma_div_mono(h.1 + th - 1, d.1 + th - 1, th);
    let a = div_ceil(h.0 as int, tw);
    let b = div_ceil(h.1 as int, th);
    let a2 = div_ceil(d.0 as int, tw);
    let b2 = div_ceil(d.1 as int, th);
    lemma_div_ceil(h.0 as int, tw);
    lemma_div_ceil(h.1 as int, th);
    assert(a * b <= a2 * b2) by (nonlinear_arith)
        requires 0 <= a <= a2, 0 <= b <= b2;
}

/// What a writer builder holds, as plain values.
pub struct BuilderModel {
    pub dimensions: Option<(u64, u64)>,
    pub tile_size: Option<(u32, u32)>,
    /// Levels given one by one, as (dimensions, tile size).
    pub levels: Seq<((u64, u64), (u32, u32))>,
    pub codec: Option<Codec>,
    pub color_model: Option<ColorModel>,
    pub channels: Option<u16>,
    pub ycbcr_subsampling: Option<(u16, u16)>,
    pub pyramid: PyramidMode,
}

/// Collects the parameters of a new writer.
#[derive(Debug)]
pub struct WriterBuilder {
    dimensions: Option<(u64, u64)>,
    tile_size: Option<(u32, u32)>,
    levels: Vec<LevelSpec>,
    codec: Option<Codec>,
    color_model: Option<ColorModel>,
    channels: Option<u16>,
    ycbcr_subsampling: Option<(u16, u16)>,
    pyramid: PyramidMode,
}

impl View for WriterBuilder {
    type V = BuilderModel;

    closed spec fn view(&self) -> BuilderModel {
        BuilderModel {
            dimensions: self.dimensions,
            tile_size: self.tile_size,
            levels: self.levels@.map_values(|l: LevelSpec| l@),
            codec: self.codec,
            color_model: self.color_model,
            channels: self.channels,
            ycbcr_subsampling: self.ycbcr_subsampling,
            pyramid: self.pyramid,
        }
    }
}

impl Clone for WriterBuilder {
    fn clone(&self) -> (r: Self)
        ensures
            r@ == self@,
    {
        let mut levels: Vec<LevelSpec> = Vec::new();
        let mut i: usize = 0;
        while i < self.levels.len()
            invariant
                i <= self.levels@.len(),
                levels@ == self.levels@.take(i as int),
            decreases self.levels@.len() - i,
        {
            levels.push(self.levels[i]);
            i = i + 1;
            assert(levels@ =~= self.levels@.take(i as int));
        }
        assert(levels@ =~= self.levels@);
        WriterBuilder {
            dimensions: self.dimensions,
            tile_size: self.tile_size,
            levels,
            codec: self.codec,
            color_model: self.color_model,
            channels: self.channels,
            ycbcr_subsampling: self.ycbcr_subsampling,
            pyramid: self.pyramid,
        }
    }
}

/// The levels, as (dimensions, tile size), a builder asks for: those given
/// one by one, or else those derived from its dimensions and tile size.
pub open spec fn requested_levels(b: BuilderModel) -> Seq<((u64, u64), (u32, u32))> {
    if b.levels.len() > 0 {
        b.levels
    } else {
        pyramid_dims(b.dimensions.unwrap(), b.tile_size.unwrap(), b.pyramid).map_values(
            |d: (u64, u64)| (d, b.tile_size.unwrap()),
        )
    }
}

/// The fresh levels of a list of (dimensions, tile size).
pub open spec fn fresh_levels(specs: Seq<((u64, u64), (u32, u32))>) -> Seq<LevelLayout> {
    specs.map_values(|s: ((u64, u64), (u32, u32))| fresh_level(s.0, s.1))
}

/// What `WriterBuilder::build` returns, for every builder.
pub open spec fn build_outcome(b: BuilderModel, r: Result<Writer, Error>) -> bool {
    if b.levels.len() == 0 && (b.dimensions is None || b.tile_size is None) {
        r matches Err(e) && e is InvalidInput
    } else if b.levels.len() == 0 && !level_spec_valid(b.dimensions.unwrap(), b.tile_size.unwrap()) {
        r matches Err(e) && level_spec_error(b.dimensions.unwrap(), b.tile_size.unwrap(), e)
    } else if b.codec is None || b.color_model is None || b.channels is None {
        r matches Err(e) && e is InvalidInput
    } else if !b.color_model.unwrap().matches_channels(b.channels.unwrap()) {
        r matches Err(e) && e is InvalidInput
    } else {
        let shapes = fresh_levels(requested_levels(b));
        let dsize = dir_size(b.codec.unwrap(), b.color_model.unwrap());
        if exists|i: int| 0 <= i < shapes.len() && (#[trigger] shapes[i]).tile_count() > usize::MAX {
            r matches Err(e) && e is Unsupported
        } else if layout_total(shapes, dsize) > u64::MAX {
            r matches Err(e) && e is Unsupported
        } else {
            r matches Ok(w) && {
                &&& w.wf()
                &&& same_shapes(w@.levels, shapes)
                &&& canonical_layout(w@.levels, dsize, w@.file_len as int)
                &&& w@.codec == b.codec.unwrap()
                &&& w@.color_model == b.color_model.unwrap()
                &&& w@.channels == b.channels.unwrap()
                &&& w@.ycbcr_subsampling == match b.ycbcr_subsampling {
                    Some(s) => s,
                    None => (2u16, 2u16),
                }
                &&& !w@.initialized
            }
        }
    }
}

/// The views of a list of level specs.
pub open spec fn spec_views(v: Seq<LevelSpec>) -> Seq<((u64, u64), (u32, u32))> {
    v.map_values(|l: LevelSpec| l@)
}

/// The levels derived from `first` as `mode` asks.
fn pyramid_specs(first: LevelSpec, mode: PyramidMode) -> (r: Vec<LevelSpec>)
    ensures
        spec_views(r@) == pyramid_dims(first@.0, first@.1, mode).map_values(|d: (u64, u64)| (d, first@.1)),
{
    proof {
        use_type_invariant(&first);
    }
    let tile = first.tile_size;
    let mut dims = first.dimensions;
    let ghost f = |d: (u64, u64)| (d, tile);
    let ghost target = pyramid_dims(first@.0, first@.1, mode).map_values(f);
    let mut out: Vec<LevelSpec> = Vec::new();
    out.push(first);
    let stop: (u64, u64) = match mode {
        PyramidMode::SingleLevel => {
            assert(spec_views(out@) =~= target);
            return out;
        },
        PyramidMode::ToSingleTile => (tile.0 as u64, tile.1 as u64),
        PyramidMode::To1x1 => (1, 1),
    };
    assert(spec_views(out@) + halvings(dims, stop).map_values(f) =~= target);
    while dims.0 > stop.0 || dims.1 > stop.1
        invariant
            level_spec_valid(dims, tile),
            stop.0 >= 1,
            stop.1 >= 1,
            f == (|d: (u64, u64)| (d, tile)),
            spec_views(out@) + halvings(dims, stop).map_values(f) == target,
        decreases dims.0 + dims.1,
    {
        proof {
            lemma_half_valid(dims, tile);
        }
        let ghost old_out = out@;
        let ghost old_dims = dims;
        dims = (dims.0 / 2 + dims.0 % 2, dims.1 / 2 + dims.1 % 2);
        out.push(LevelSpec { dimensions: dims, tile_size: tile });
        proof {
            assert(halvings(old_dims, stop) == seq![dims] + halvings(dims, stop));
            assert(spec_views(out@) =~= spec_views(old_out).push((dims, tile)));
            assert(halvings(old_dims, stop).map_values(f) =~= seq![(dims, tile)] + halvings(dims, stop).map_values(f));
            assert(spec_views(out@) + halvings(dims, stop).map_values(f) =~= spec_views(old_out) + halvings(old_dims, stop).map_values(f));
        }
    }
    assert(halvings(dims, stop) =~= Seq::<(u64, u64)>::empty());
    assert(spec_views(out@) =~= target);
    out
}

impl Writer {
    /// Starts building a writer.
    pub fn new() -> (r: WriterBuilder)
        ensures
            r@ == (BuilderModel {
                dimensions: None,
                tile_size: None,
                levels: Seq::empty(),
                codec: None,
                color_model: None,
                channels: None,
                ycbcr_subsampling: None,
                pyramid: PyramidMode::SingleLevel,
            }),
    {
        let r = WriterBuilder {
            dimensions: None,
            tile_size: None,
            levels: Vec::new(),
            codec: None,
            color_model: None,
            channels: None,
            ycbcr_subsampling: None,
            pyramid: PyramidMode::SingleLevel,
        };
        assert(r@.levels =~= Seq::empty());
        r
    }
}

impl WriterBuilder {
    /// Sets the full-resolution dimensions.
    pub fn dimensions(self, dimensions: (u64, u64)) -> (r: Self)
        ensures
            r@ == (BuilderModel { dimensions: Some(dimensions), ..self@ }),
    {
        let mut b = self;
        b.dimensions = Some(dimensions);
        b
    }

    /// Sets the tile size; it is validated when the writer is built.
    pub fn tile_size(self, tile_size: (u32, u32)) -> (r: Result<Self, Error>)
        ensures
            r matches Ok(b) && b@ == (BuilderModel { tile_size: Some(tile_size), ..self@ }),
    {
        let mut b = self;
        b.tile_size = Some(tile_size);
        Ok(b)
    }

    /// Adds a level; once a level is given, the dimensions, tile size and
    /// pyramid setting are not used.
    pub fn level(self, level: LevelSpec) -> (r: Self)
        ensures
            r@ == (BuilderModel { levels: self@.levels.push(level@), ..self@ }),
    {
        let mut b = self;
        b.levels.push(level);
        assert(b.levels@.map_values(|l: LevelSpec| l@) =~= self@.levels.push(level@));
        b
    }

    /// Sets the tile codec.
    pub fn codec(self, codec: Codec) -> (r: Self)
        ensures
            r@ == (BuilderModel { codec: Some(codec), ..self@ }),
    {
        let mut b = self;
        b.codec = Some(codec);
        b
    }

    /// Sets the color model.
    pub fn color_model(self, color_model: ColorModel) -> (r: Self)
        ensures
            r@ == (BuilderModel { color_model: Some(color_model), ..self@ }),
    {
        let mut b = self;
        b.color_model = Some(color_model);
        b
    }

    /// Sets the number of channels: 1 or 3.
    pub fn channels(self, channels: u16) -> (r: Result<Self, Error>)
        ensures
            r is Ok <==> channels == 1 || channels == 3,
            r matches Ok(b) ==> b@ == (BuilderModel { channels: Some(channels), ..self@ }),
            r matches Err(e) ==> e is InvalidInput,
    {
        match validate_channels(channels) {
            Ok(()) => {
                let mut b = self;
                b.channels = Some(channels);
                Ok(b)
            },
            Err(e) => Err(e),
        }
    }

    /// Sets the YCbCr subsampling recorded for JPEG tiles: 4:4:4 or 4:2:0.
    pub fn ycbcr_subsampling(self, subsampling: (u16, u16)) -> (r: Result<Self, Error>)
        ensures
            r is Ok <==> standard_subsampling(subsampling),
            r matches Ok(b) ==> b@ == (BuilderModel { ycbcr_subsampling: Some(subsampling), ..self@ }),
            r matches Err(e) ==> e is InvalidInput,
    {
        match validate_ycbcr_subsampling(subsampling) {
            Ok(()) => {
                let mut b = self;
                b.ycbcr_subsampling = Some(subsampling);
                Ok(b)
            },
            Err(e) => Err(e),
        }
    }

    /// Records any non-zero YCbCr subsampling, as found in an existing file.
    pub fn preserve_nonstandard_ycbcr_subsampling(self, subsampling: (u16, u16)) -> (r: Result<Self, Error>)
        ensures
            r is Ok <==> subsampling.0 != 0 && subsampling.1 != 0,
            r matches Ok(b) ==> b@ == (BuilderModel { ycbcr_subsampling: Some(subsampling), ..self@ }),
            r matches Err(e) ==> e is InvalidInput,
    {
        match validate_nonstandard_ycbcr_subsampling(subsampling) {
            Ok(()) => {
                let mut b = self;
                b.ycbcr_subsampling = Some(subsampling);
                Ok(b)
            },
            Err(e) => Err(e),
        }
    }

    /// Derives halved levels down to one that fits in a single tile.
    pub fn pyramid(self) -> (r: Self)
        ensures
            r@ == (BuilderModel { pyramid: PyramidMode::ToSingleTile, ..self@ }),
    {
        let mut b = self;
        b.pyramid = PyramidMode::ToSingleTile;
        b
    }

    /// Derives halved levels down to a 1x1 level.
    pub fn pyramid_to_1x1(self) -> (r: Self)
        ensures
            r@ == (BuilderModel { pyramid: PyramidMode::To1x1, ..self@ }),
    {
        let mut b = self;
        b.pyramid = PyramidMode::To1x1;
        b
    }
}

impl WriterBuilder {
    /// Builds the writer: the levels given one by one, or else the levels
    /// derived from the dimensions and tile size, laid out for a file not
    /// yet written. The YCbCr subsampling defaults to 4:2:0.
    #[verifier::loop_isolation(false)]
    pub fn build(self) -> (r: Result<Writer, Error>)
        ensures
            build_outcome(self@, r),
    {
        let ghost b = self@;
        let specs: Vec<LevelSpec> = if self.levels.len() == 0 {
            let dims = match self.dimensions {
                Some(d) => d,
                None => return Err(Error::InvalidInput("missing dimensions")),
            };
            let tile = match self.tile_size {
                Some(t) => t,
                None => return Err(Error::InvalidInput("missing tile size")),
            };
            let first = match LevelSpec::new(dims, tile) {
                Ok(s) => s,
                Err(e) => return Err(e),
            };
            pyramid_specs(first, self.pyramid)
        } else {
            self.levels
        };
        let codec = match self.codec {
            Some(c) => c,
            None => return Err(Error::InvalidInput("missing codec")),
        };
        let color_model = match self.color_model {
            Some(c) => c,
            None => return Err(Error::InvalidInput("missing color model")),
        };
        let channels = match self.channels {
            Some(c) => c,
            None => return Err(Error::InvalidInput("missing channels")),
        };
        match validate_color_channels(color_model, channels) {
            Ok(()) => {},
            Err(e) => return Err(e),
        }
        let ycbcr_subsampling = match self.ycbcr_subsampling {
            Some(s) => s,
            None => (2, 2),
        };
        let ghost requested = requested_levels(b);
        let ghost shapes = fresh_levels(requested);
        assert(spec_views(specs@) =~= requested);
        let mut levels: Vec<LevelState> = Vec::new();
        let mut i: usize = 0;
        while i < specs.len()
            invariant
                spec_views(specs@) == requested,
                shapes == fresh_levels(requested),
                i <= specs@.len(),
                layouts(levels@) == shapes.take(i as int),
                forall|j: int| 0 <= j < i ==> level_holdable(#[trigger] shapes[j]),
            decreases specs@.len() - i,
        {
            let sp = specs[i];
            proof {
                use_type_invariant(&sp);
            }
            assert(requested[i as int] == sp@);
            match fresh_state(sp.dimensions, sp.tile_size) {
                Ok(st) => {
                    let ghost before = levels@;
                    levels.push(st);
                    assert(layouts(levels@) =~= layouts(before).push(st@));
                    assert(shapes[i as int] == st@);
                    assert(layouts(levels@) =~= shapes.take(i + 1));
                },
                Err(e) => {
                    assert(shapes[i as int].tile_count() > usize::MAX);
                    return Err(e);
                },
            }
            i = i + 1;
        }
        assert(shapes.take(specs@.len() as int) =~= shapes);
        let dsize: u64 = if has_ycbcr_entry(codec, color_model) {
            256
        } else {
            236
        };
        let total = match place_levels(&mut levels, dsize) {
            Some(t) => t,
            None => return Err(Error::Unsupported("file layout exceeds 64-bit offsets")),
        };
        let w = Writer {
            levels,
            codec,
            color_model,
            channels,
            ycbcr_subsampling,
            file_len: total,
            initialized: false,
        };
        proof {
            assert(relaid(w@, shapes, w@));
            assert forall|i: int| 0 <= i < shapes.len() implies zeroed(#[trigger] shapes[i]) by {
                assert(shapes[i] == fresh_level(requested[i].0, requested[i].1));
            }
            lemma_relaid_wf(w@, shapes, w@);
        }
        Ok(w)
    }
}

/// Every directory takes `dir_size` bytes.
pub proof fn lemma_directory_len(
    l: LevelLayout,
    next: u64,
    codec: Codec,
    color: ColorModel,
    channels: u16,
    ycbcr: (u16, u16),
)
    ensures
        spec_encode_directory(l, next, codec, color, channels, ycbcr).len() == dir_size(codec, color),
{
    reveal(spec_encode_directory);
    let es = dir_entries(l, codec, color, channels, ycbcr);
    assert forall|v: u16| #[trigger] u16_bytes(v).len() == 2 by {}
    assert forall|v: u32| #[trigger] u32_bytes(v).len() == 4 by {}
    assert forall|v: u64| #[trigger] u64_bytes(v).len() == 8 by {}
    assert(offsets_slot(l.offsets, l.offsets_base).len() == 8);
    assert(counts_slot(l.counts, l.counts_base).len() == 8);
    assert(slots_sized(es));
    lemma_entries_bytes_len(es);
}
} // verus!
