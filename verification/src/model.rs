//! The metadata model: codecs, color models, byte ranges, chunks, levels,
//! tiles and the parsed image.
use vstd::prelude::*;

use crate::error::Error;
use crate::format::{ceil_div, div_ceil, lemma_div_ceil, spec_tile_grid, tile_count};
use core::ops::Range;

verus! {

/// Tile compression codec.
#[derive(Debug, Clone, Copy, PartialEq, Eq, Structural)]
pub enum Codec {
    Jpeg,
    Png,
    JpegXr,
    Jpeg2000,
}

/// The codec recorded under a numeric code, if the code names one.
pub open spec fn codec_of_code(code: u16) -> Option<Codec> {
    if code == 7 {
        Some(Codec::Jpeg)
    } else if code == 34933 {
        Some(Codec::Png)
    } else if code == 34934 {
        Some(Codec::JpegXr)
    } else if code == 34712 {
        Some(Codec::Jpeg2000)
    } else {
        None
    }
}

impl Codec {
    /// The numeric code stored on disk for this codec.
    pub open spec fn spec_code(self) -> u16 {
        match self {
            Codec::Jpeg => 7,
            Codec::Png => 34933,
            Codec::JpegXr => 34934,
            Codec::Jpeg2000 => 34712,
        }
    }

    pub(crate) fn from_code(code: u16) -> (r: Result<Self, Error>)
        ensures
            r is Ok <==> codec_of_code(code) is Some,
            r matches Ok(c) ==> codec_of_code(code) == Some(c),
            r matches Err(e) ==> e == Error::MalformedFile("unsupported codec code"),
    {
        match code {
            7 => Ok(Self::Jpeg),
            34933 => Ok(Self::Png),
            34934 => Ok(Self::JpegXr),
            34712 => Ok(Self::Jpeg2000),
            _ => Err(Error::MalformedFile("unsupported codec code")),
        }
    }

    pub(crate) fn code(self) -> (r: u16)
        ensures
            r == self.spec_code(),
    {
        match self {
            Self::Jpeg => 7,
            Self::Png => 34933,
            Self::JpegXr => 34934,
            Self::Jpeg2000 => 34712,
        }
    }
}

/// Decoding the code of a codec gives the same codec back, and a code that
/// decodes to a codec is that codec's code.
pub proof fn lemma_codec_code_roundtrip(c: Codec, code: u16)
    ensures
        codec_of_code(c.spec_code()) == Some(c),
        codec_of_code(code) matches Some(d) ==> d.spec_code() == code,
{
}

/// Photometric interpretation of the pixels.
#[derive(Debug, Clone, Copy, PartialEq, Eq, Structural)]
pub enum ColorModel {
    WhiteIsZero,
    BlackIsZero,
    Rgb,
    YCbCr,
}

/// The color model recorded under a numeric code, if the code names one.
pub open spec fn color_model_of_code(code: u16) -> Option<ColorModel> {
    if code == 0 {
        Some(ColorModel::WhiteIsZero)
    } else if code == 1 {
        Some(ColorModel::BlackIsZero)
    } else if code == 2 {
        Some(ColorModel::Rgb)
    } else if code == 6 {
        Some(ColorModel::YCbCr)
    } else {
        None
    }
}

impl ColorModel {
    /// The numeric code stored on disk for this color model.
    pub open spec fn spec_code(self) -> u16 {
        match self {
            ColorModel::WhiteIsZero => 0,
            ColorModel::BlackIsZero => 1,
            ColorModel::Rgb => 2,
            ColorModel::YCbCr => 6,
        }
    }

    /// Whether pixels of this model carry `channels` channels.
    pub open spec fn matches_channels(self, channels: u16) -> bool {
        match self {
            ColorModel::WhiteIsZero | ColorModel::BlackIsZero => channels == 1,
            ColorModel::Rgb | ColorModel::YCbCr => channels == 3,
        }
    }

    pub(crate) fn from_code(code: u16) -> (r: Result<Self, Error>)
        ensures
            r is Ok <==> color_model_of_code(code) is Some,
            r matches Ok(c) ==> color_model_of_code(code) == Some(c),
            r matches Err(e) ==> e == Error::MalformedFile("unsupported color model"),
    {
        match code {
            0 => Ok(Self::WhiteIsZero),
            1 => Ok(Self::BlackIsZero),
            2 => Ok(Self::Rgb),
            6 => Ok(Self::YCbCr),
            _ => Err(Error::MalformedFile("unsupported color model")),
        }
    }

    pub(crate) fn code(self) -> (r: u16)
        ensures
            r == self.spec_code(),
    {
        match self {
            Self::WhiteIsZero => 0,
            Self::BlackIsZero => 1,
            Self::Rgb => 2,
            Self::YCbCr => 6,
        }
    }
}

/// Decoding the code of a color model gives the same model back, and a code
/// that decodes to a model is that model's code.
pub proof fn lemma_color_model_code_roundtrip(c: ColorModel, code: u16)
    ensures
        color_model_of_code(c.spec_code()) == Some(c),
        color_model_of_code(code) matches Some(d) ==> d.spec_code() == code,
{
}

/// The on-disk photometric codes are TIFF's: 0 for WhiteIsZero, 1 for
/// BlackIsZero, 2 for RGB and 6 for YCbCr, and decoding reads exactly those
/// four codes back and refuses every other.
pub proof fn lemma_color_model_codes(code: u16)
    ensures
        ColorModel::WhiteIsZero.spec_code() == 0,
        ColorModel::BlackIsZero.spec_code() == 1,
        ColorModel::Rgb.spec_code() == 2,
        ColorModel::YCbCr.spec_code() == 6,
        color_model_of_code(0) == Some(ColorModel::WhiteIsZero),
        color_model_of_code(1) == Some(ColorModel::BlackIsZero),
        color_model_of_code(2) == Some(ColorModel::Rgb),
        color_model_of_code(6) == Some(ColorModel::YCbCr),
        code != 0 && code != 1 && code != 2 && code != 6 ==> color_model_of_code(code) is None,
{
}

/// The on-disk compression codes: 7 for JPEG, 34933 for PNG, 34934 for
/// JPEG XR and 34712 for JPEG 2000; decoding reads exactly those four codes
/// back and refuses every other.
pub proof fn lemma_codec_codes(code: u16)
    ensures
        Codec::Jpeg.spec_code() == 7,
        Codec::Png.spec_code() == 34933,
        Codec::JpegXr.spec_code() == 34934,
        Codec::Jpeg2000.spec_code() == 34712,
        codec_of_code(7) == Some(Codec::Jpeg),
        codec_of_code(34933) == Some(Codec::Png),
        codec_of_code(34934) == Some(Codec::JpegXr),
        codec_of_code(34712) == Some(Codec::Jpeg2000),
        code != 7 && code != 34933 && code != 34934 && code != 34712 ==> codec_of_code(code) is None,
{
}

/// How a directory chain is interpreted.
#[derive(Debug, Clone, Copy, PartialEq, Eq, Structural)]
pub enum ChainKind {
    Pyramid,
    TimeSeries,
    Collection,
}

/// A byte-range request made by the reader or by a tile.
#[derive(Debug, Clone, Copy, PartialEq, Eq)]
pub struct Request {
    start: u64,
    end: u64,
}

impl View for Request {
    type V = Range<u64>;

    closed spec fn view(&self) -> Range<u64> {
        Range { start: self.start, end: self.end }
    }
}

impl Request {
    #[verifier::type_invariant]
    pub open spec fn inv(self) -> bool {
        self@.start <= self@.end
    }

    /// Creates a request for a half-open byte range.
    pub fn new(range: Range<u64>) -> (r: Result<Self, Error>)
        ensures
            r is Ok <==> range.start <= range.end,
            r matches Ok(req) ==> req@ == range,
            r matches Err(e) ==> e is InvalidInput,
    {
        if range.start > range.end {
            return Err(Error::InvalidInput("request range start is after end"));
        }
        Ok(Self { start: range.start, end: range.end })
    }

    /// Returns the requested half-open byte range.
    pub fn range(&self) -> (r: Range<u64>)
        ensures
            r == self@,
    {
        self.start..self.end
    }

    /// Returns the first requested byte offset.
    pub fn start(&self) -> (r: u64)
        ensures
            r == self@.start,
    {
        self.start
    }

    /// Returns the exclusive end offset.
    pub fn end(&self) -> (r: u64)
        ensures
            r == self@.end,
    {
        self.end
    }

    /// Returns the requested byte count.
    pub fn len(&self) -> (r: u64)
        ensures
            r == self@.end - self@.start,
    {
        proof {
            use_type_invariant(self);
        }
        self.end - self.start
    }

    /// Returns true when the requested range is empty.
    pub fn is_empty(&self) -> (r: bool)
        ensures
            r == (self@.start == self@.end),
    {
        proof {
            use_type_invariant(self);
        }
        self.start >= self.end
    }
}

/// The bytes of a chunk together with the range they cover.
pub struct ChunkModel {
    pub start: u64,
    pub end: u64,
    pub bytes: Seq<u8>,
    /// The length of the whole file, when the IO layer knows it.
    pub file_len: Option<u64>,
}

/// A coherent byte chunk returned by an IO layer: the length of its range
/// equals the number of bytes it carries.
#[derive(Debug, PartialEq, Eq)]
pub struct Chunk {
    start: u64,
    end: u64,
    bytes: Vec<u8>,
    file_len: Option<u64>,
}

impl View for Chunk {
    type V = ChunkModel;

    closed spec fn view(&self) -> ChunkModel {
        ChunkModel { start: self.start, end: self.end, bytes: self.bytes@, file_len: self.file_len }
    }
}

impl Clone for Chunk {
    fn clone(&self) -> (r: Self)
        ensures
            r@ == self@,
    {
        proof {
            use_type_invariant(self);
        }
        Chunk { start: self.start, end: self.end, bytes: self.bytes.clone(), file_len: self.file_len }
    }
}

impl Default for Chunk {
    fn default() -> (r: Self)
        ensures
            r@.start == 0,
            r@.end == 0,
            r@.bytes.len() == 0,
            r@.file_len is None,
    {
        Self { start: 0, end: 0, bytes: Vec::new(), file_len: None }
    }
}

impl Chunk {
    #[verifier::type_invariant]
    pub open spec fn inv(self) -> bool {
        &&& self@.start <= self@.end
        &&& self@.end - self@.start == self@.bytes.len()
        &&& self@.file_len matches Some(n) ==> self@.end <= n
    }

    /// Creates a coherent chunk for a half-open byte range; the range length
    /// must match the byte length.
    pub fn new(range: Range<u64>, bytes: Vec<u8>) -> (r: Result<Self, Error>)
        ensures
            r is Ok <==> range.start <= range.end && range.end - range.start == bytes@.len(),
            r matches Ok(c) ==> c@.start == range.start && c@.end == range.end && c@.bytes == bytes@
                && c@.file_len is None,
            r matches Err(e) ==> e is InvalidInput,
    {
        if range.start > range.end {
            return Err(Error::InvalidInput("chunk range start is after end"));
        }
        let expected = range.end - range.start;
        let actual = bytes.len() as u64;
        if expected != actual {
            return Err(Error::InvalidInput("chunk range length differs from byte length"));
        }
        Ok(Self { start: range.start, end: range.end, bytes, file_len: None })
    }

    /// Creates a coherent chunk from a start offset and byte buffer.
    pub fn from_start(start: u64, bytes: Vec<u8>) -> (r: Result<Self, Error>)
        ensures
            r is Ok <==> start + bytes@.len() <= u64::MAX,
            r matches Ok(c) ==> c@.start == start && c@.end == start + bytes@.len() && c@.bytes == bytes@
                && c@.file_len is None,
            r matches Err(e) ==> e is InvalidInput,
    {
        let range = match crate::format::checked_len(start, bytes.len()) {
            Ok(r) => r,
            Err(e) => return Err(e),
        };
        Self::new(range, bytes)
    }

    /// Creates a chunk that holds a whole file.
    pub fn whole_file(bytes: Vec<u8>) -> (r: Result<Self, Error>)
        ensures
            r is Ok <==> bytes@.len() <= u64::MAX,
            r matches Ok(c) ==> c@.start == 0 && c@.end == bytes@.len() && c@.bytes == bytes@ && c@.file_len
                == Some(bytes@.len() as u64),
            r matches Err(e) ==> e is InvalidInput,
    {
        let c = match Self::from_start(0, bytes) {
            Ok(c) => c,
            Err(e) => return Err(e),
        };
        let end = c.end;
        c.with_file_len(end)
    }

    /// The same chunk, recording that the whole file is `file_len` bytes
    /// long; refused when the chunk runs past that length.
    pub fn with_file_len(self, file_len: u64) -> (r: Result<Self, Error>)
        ensures
            r is Ok <==> self@.end <= file_len,
            r matches Ok(c) ==> c@ == (ChunkModel { file_len: Some(file_len), ..self@ }),
            r matches Err(e) ==> e is InvalidInput,
    {
        proof {
            use_type_invariant(&self);
        }
        if self.end > file_len {
            return Err(Error::InvalidInput("chunk runs past the file length"));
        }
        Ok(Self { start: self.start, end: self.end, bytes: self.bytes, file_len: Some(file_len) })
    }

    /// The length of the whole file, when the chunk records it.
    pub fn file_len(&self) -> (r: Option<u64>)
        ensures
            r == self@.file_len,
    {
        self.file_len
    }

    /// Returns the byte range covered by this chunk.
    pub fn range(&self) -> (r: Range<u64>)
        ensures
            r.start == self@.start,
            r.end == self@.end,
    {
        self.start..self.end
    }

    /// Returns the bytes carried by this chunk.
    pub fn bytes(&self) -> (r: &[u8])
        ensures
            r@ == self@.bytes,
    {
        self.bytes.as_slice()
    }

    /// Returns the first byte offset covered by this chunk.
    pub fn start(&self) -> (r: u64)
        ensures
            r == self@.start,
    {
        self.start
    }

    /// Returns the exclusive end offset covered by this chunk.
    pub fn end(&self) -> (r: u64)
        ensures
            r == self@.end,
    {
        self.end
    }

    /// Splits the chunk into its range and its bytes.
    pub fn into_parts(self) -> (r: (Range<u64>, Vec<u8>))
        ensures
            r.0.start == self@.start,
            r.0.end == self@.end,
            r.1@ == self@.bytes,
    {
        (self.start..self.end, self.bytes)
    }
}

/// A pixel region represented as `x_range` and `y_range`.
#[derive(Debug, Clone, Copy)]
pub struct Region {
    x_start: u64,
    x_end: u64,
    y_start: u64,
    y_end: u64,
}

impl View for Region {
    type V = (Range<u64>, Range<u64>);

    closed spec fn view(&self) -> (Range<u64>, Range<u64>) {
        (Range { start: self.x_start, end: self.x_end }, Range { start: self.y_start, end: self.y_end })
    }
}

impl Region {
    #[verifier::type_invariant]
    pub open spec fn inv(self) -> bool {
        self@.0.start <= self@.0.end && self@.1.start <= self@.1.end
    }

    /// Creates a pixel region from `(x_range, y_range)`.
    pub fn new(x: Range<u64>, y: Range<u64>) -> (r: Result<Self, Error>)
        ensures
            r is Ok <==> x.start <= x.end && y.start <= y.end,
            r matches Ok(reg) ==> reg@ == (x, y),
            r matches Err(e) ==> e is InvalidInput,
    {
        if x.start > x.end || y.start > y.end {
            return Err(Error::InvalidInput("region range start is after end"));
        }
        Ok(Self { x_start: x.start, x_end: x.end, y_start: y.start, y_end: y.end })
    }
}


/// The row-major tile indices of row `row` from column `c0` up to `c1`.
pub open spec fn row_indices(across: int, row: int, c0: int, c1: int) -> Seq<int> {
    Seq::new((c1 - c0) as nat, |k: int| row * across + c0 + k)
}

/// The row-major tile indices of the rows `r0..r1` restricted to the columns
/// `c0..c1`.
pub open spec fn grid_indices(across: int, r0: int, r1: int, c0: int, c1: int) -> Seq<int>
    decreases r1 - r0,
{
    if r0 >= r1 {
        Seq::empty()
    } else {
        row_indices(across, r0, c0, c1) + grid_indices(across, r0 + 1, r1, c0, c1)
    }
}

/// Length and elements of a rectangular block of the tile grid.
pub proof fn lemma_grid_indices(across: int, r0: int, r1: int, c0: int, c1: int)
    requires
        r0 <= r1,
        c0 < c1,
    ensures
        grid_indices(across, r0, r1, c0, c1).len() == (r1 - r0) * (c1 - c0),
        forall|k: int| 0 <= k < (r1 - r0) * (c1 - c0) ==> #[trigger] grid_indices(across, r0, r1, c0, c1)[k]
            == (r0 + k / (c1 - c0)) * across + c0 + k % (c1 - c0),
    decreases r1 - r0,
{
    let w = c1 - c0;
    if r0 == r1 {
        assert((r1 - r0) * w == 0) by (nonlinear_arith)
            requires r1 - r0 == 0;
    } else {
        lemma_grid_indices(across, r0 + 1, r1, c0, c1);
        let g = grid_indices(across, r0, r1, c0, c1);
        let row = row_indices(across, r0, c0, c1);
        let rest = grid_indices(across, r0 + 1, r1, c0, c1);
        assert((r1 - r0) * w == w + (r1 - (r0 + 1)) * w) by (nonlinear_arith);
        assert(g.len() == (r1 - r0) * w);
        assert forall|k: int| 0 <= k < (r1 - r0) * w implies #[trigger] g[k] == (r0 + k / w) * across + c0 + k % w by {
            if k < w {
                assert(k / w == 0 && k % w == k) by (nonlinear_arith)
                    requires 0 <= k < w;
                assert(g[k] == row[k]);
            } else {
                let j = k - w;
                assert(j / w == k / w - 1 && j % w == k % w) by (nonlinear_arith)
                    requires j == k - w, w > 0, k >= w;
                assert(g[k] == rest[j]);
                assert((r0 + 1 + j / w) * across == (r0 + k / w) * across) by (nonlinear_arith)
                    requires j / w == k / w - 1;
            }
        }
    }
}

/// The whole grid of a level, row by row, enumerates every tile index once,
/// in increasing order.
pub proof fn lemma_full_grid_is_row_major(across: int, down: int)
    requires
        across > 0,
        down >= 0,
    ensures
        grid_indices(across, 0, down, 0, across) == Seq::new((across * down) as nat, |i: int| i),
{
    lemma_grid_indices(across, 0, down, 0, across);
    assert(across * down >= 0) by (nonlinear_arith)
        requires across > 0, down >= 0;
    let g = grid_indices(across, 0, down, 0, across);
    assert((down - 0) * (across - 0) == across * down) by (nonlinear_arith);
    assert forall|k: int| 0 <= k < across * down implies #[trigger] g[k] == k by {
        vstd::arithmetic::div_mod::lemma_fundamental_div_mod(k, across);
        assert((0 + k / across) * across + 0 + k % across == k) by (nonlinear_arith)
            requires k == across * (k / across) + k % across;
        assert(g[k] == (0 + k / across) * across + 0 + k % across);
    }
    assert(g =~= Seq::new((across * down) as nat, |i: int| i));
}

/// Metadata of one image level, as plain values.
pub struct LevelModel {
    pub index: usize,
    pub width: u64,
    pub height: u64,
    pub tile_width: u64,
    pub tile_height: u64,
    pub tiles_across: u64,
    pub tiles_down: u64,
    pub codec: Codec,
    pub color_model: ColorModel,
    pub channels: u16,
    pub ycbcr_subsampling: Option<(u16, u16)>,
    pub offsets: Seq<u64>,
    pub counts: Seq<u32>,
}

impl LevelModel {
    /// The grid matches the dimensions, the tile arrays match the grid and
    /// no tile byte range overflows.
    pub open spec fn wf(self) -> bool {
        &&& self.tile_width > 0
        &&& self.tile_height > 0
        &&& self.tiles_across == div_ceil(self.width as int, self.tile_width as int)
        &&& self.tiles_down == div_ceil(self.height as int, self.tile_height as int)
        &&& self.tiles_across * self.tiles_down <= u64::MAX
        &&& self.offsets.len() == self.tiles_across * self.tiles_down
        &&& self.counts.len() == self.tiles_across * self.tiles_down
        &&& forall|i: int| 0 <= i < self.offsets.len() ==> self.offsets[i] + self.counts[i] <= u64::MAX
    }

    pub open spec fn tile_count(self) -> int {
        self.tiles_across * self.tiles_down
    }

    pub open spec fn tile_col(self, i: int) -> int {
        i % (self.tiles_across as int)
    }

    pub open spec fn tile_row(self, i: int) -> int {
        i / (self.tiles_across as int)
    }

    pub open spec fn tile_x(self, i: int) -> int {
        self.tile_col(i) * self.tile_width
    }

    pub open spec fn tile_y(self, i: int) -> int {
        self.tile_row(i) * self.tile_height
    }

    /// Width of tile `i`, clipped at the right image edge.
    pub open spec fn tile_w(self, i: int) -> int {
        if self.tile_width <= self.width - self.tile_x(i) {
            self.tile_width as int
        } else {
            self.width - self.tile_x(i)
        }
    }

    /// Height of tile `i`, clipped at the bottom image edge.
    pub open spec fn tile_h(self, i: int) -> int {
        if self.tile_height <= self.height - self.tile_y(i) {
            self.tile_height as int
        } else {
            self.height - self.tile_y(i)
        }
    }

    pub open spec fn tile_start(self, i: int) -> int {
        self.offsets[i] as int
    }

    pub open spec fn tile_end(self, i: int) -> int {
        self.offsets[i] + self.counts[i]
    }
}

/// The tiles of a well-formed level partition the image: a tile that is
/// not the last of its row ends where the next tile of the row starts, the
/// last one ends at the right edge of the image; a tile that is not in the
/// last row ends where the tile below it starts, one in the last row ends
/// at the bottom edge.
pub proof fn lemma_tiles_partition(l: LevelModel, i: int)
    requires
        l.wf(),
        0 <= i < l.tile_count(),
    ensures
        l.tile_col(i) + 1 < l.tiles_across ==> l.tile_x(i) + l.tile_w(i) == l.tile_x(i + 1) && l.tile_row(i + 1)
            == l.tile_row(i),
        l.tile_col(i) + 1 == l.tiles_across ==> l.tile_x(i) + l.tile_w(i) == l.width,
        l.tile_row(i) + 1 < l.tiles_down ==> l.tile_y(i) + l.tile_h(i) == l.tile_y(i + l.tiles_across)
            && l.tile_col(i + l.tiles_across) == l.tile_col(i),
        l.tile_row(i) + 1 == l.tiles_down ==> l.tile_y(i) + l.tile_h(i) == l.height,
{
    lemma_tile_geometry(l, i);
    let a = l.tiles_across as int;
    let d = l.tiles_down as int;
    let c = l.tile_col(i);
    let r = l.tile_row(i);
    let tw = l.tile_width as int;
    let th = l.tile_height as int;
    lemma_div_ceil(l.width as int, tw);
    lemma_div_ceil(l.height as int, th);
    if c + 1 < a {
        vstd::arithmetic::div_mod::lemma_fundamental_div_mod(i + 1, a);
        assert((i + 1) % a == c + 1 && (i + 1) / a == r) by (nonlinear_arith)
            requires i == r * a + c, 0 <= c, c + 1 < a, i + 1 == a * ((i + 1) / a) + (i + 1) % a,
                0 <= (i + 1) % a < a;
        assert((c + 1) * tw <= (a - 1) * tw) by (nonlinear_arith)
            requires c + 1 <= a - 1, tw > 0;
        assert((c + 1) * tw == c * tw + tw) by (nonlinear_arith);
    } else {
        assert(c == a - 1);
        assert(a * tw == c * tw + tw) by (nonlinear_arith)
            requires c == a - 1;
    }
    if r + 1 < d {
        let j = i + a;
        vstd::arithmetic::div_mod::lemma_fundamental_div_mod(j, a);
        assert(j % a == c && j / a == r + 1) by (nonlinear_arith)
            requires i == r * a + c, 0 <= c < a, j == i + a, j == a * (j / a) + j % a, 0 <= j % a < a;
        assert((r + 1) * th <= (d - 1) * th) by (nonlinear_arith)
            requires r + 1 <= d - 1, th > 0;
        assert((r + 1) * th == r * th + th) by (nonlinear_arith);
    } else {
        assert(r == d - 1);
        assert(d * th == r * th + th) by (nonlinear_arith)
            requires r == d - 1;
    }
}

/// Geometry of tile `i` of a well-formed level: it lies inside the image,
/// it is not empty, and it is the tile at column `i % across`, row
/// `i / across`.
pub proof fn lemma_tile_geometry(l: LevelModel, i: int)
    requires
        l.wf(),
        0 <= i < l.tile_count(),
    ensures
        l.tiles_across > 0,
        l.tiles_down > 0,
        0 <= l.tile_col(i) < l.tiles_across,
        0 <= l.tile_row(i) < l.tiles_down,
        i == l.tile_row(i) * l.tiles_across + l.tile_col(i),
        0 <= l.tile_x(i) < l.width,
        0 <= l.tile_y(i) < l.height,
        0 < l.tile_w(i) <= l.tile_width,
        0 < l.tile_h(i) <= l.tile_height,
        l.tile_x(i) + l.tile_w(i) <= l.width,
        l.tile_y(i) + l.tile_h(i) <= l.height,
{
    let a = l.tiles_across as int;
    let d = l.tiles_down as int;
    assert(a > 0 && d > 0) by (nonlinear_arith)
        requires 0 <= i < a * d, a >= 0, d >= 0;
    let c = i % a;
    let r = i / a;
    assert(0 <= c < a && 0 <= r < d && i == r * a + c) by (nonlinear_arith)
        requires 0 <= i < a * d, a > 0, c == i % a, r == i / a;
    lemma_div_ceil(l.width as int, l.tile_width as int);
    lemma_div_ceil(l.height as int, l.tile_height as int);
    let tw = l.tile_width as int;
    let th = l.tile_height as int;
    assert(0 <= c * tw <= (a - 1) * tw) by (nonlinear_arith)
        requires 0 <= c < a, tw > 0;
    assert(0 <= r * th <= (d - 1) * th) by (nonlinear_arith)
        requires 0 <= r < d, th > 0;
}

/// Metadata for one image level.
#[derive(Debug)]
pub struct Level {
    index: usize,
    width: u64,
    height: u64,
    tile_width: u64,
    tile_height: u64,
    tiles_across: u64,
    tiles_down: u64,
    codec: Codec,
    color_model: ColorModel,
    channels: u16,
    ycbcr_subsampling: Option<(u16, u16)>,
    offsets: Vec<u64>,
    counts: Vec<u32>,
}

impl View for Level {
    type V = LevelModel;

    closed spec fn view(&self) -> LevelModel {
        LevelModel {
            index: self.index,
            width: self.width,
            height: self.height,
            tile_width: self.tile_width,
            tile_height: self.tile_height,
            tiles_across: self.tiles_across,
            tiles_down: self.tiles_down,
            codec: self.codec,
            color_model: self.color_model,
            channels: self.channels,
            ycbcr_subsampling: self.ycbcr_subsampling,
            offsets: self.offsets@,
            counts: self.counts@,
        }
    }
}

impl Clone for Level {
    fn clone(&self) -> (r: Self)
        ensures
            r@ == self@,
    {
        proof {
            use_type_invariant(self);
        }
        let offsets = self.offsets.clone();
        let counts = self.counts.clone();
        assert(offsets@ == self.offsets@);
        assert(counts@ == self.counts@);
        Level {
            index: self.index,
            width: self.width,
            height: self.height,
            tile_width: self.tile_width,
            tile_height: self.tile_height,
            tiles_across: self.tiles_across,
            tiles_down: self.tiles_down,
            codec: self.codec,
            color_model: self.color_model,
            channels: self.channels,
            ycbcr_subsampling: self.ycbcr_subsampling,
            offsets,
            counts,
        }
    }
}

impl Level {
    #[verifier::type_invariant]
    pub open spec fn inv(self) -> bool {
        self@.wf()
    }

    /// Builds a level, checking that the tile arrays match the tile grid and
    /// that no tile byte range overflows.
    pub(crate) fn new(
        index: usize,
        width: u64,
        height: u64,
        tile_width: u64,
        tile_height: u64,
        codec: Codec,
        color_model: ColorModel,
        channels: u16,
        ycbcr_subsampling: Option<(u16, u16)>,
        offsets: Vec<u64>,
        counts: Vec<u32>,
    ) -> (r: Result<Self, Error>)
        ensures
            r is Ok <==> ({
                let g = spec_tile_grid(width as int, height as int, tile_width as int, tile_height as int);
                &&& tile_width != 0
                &&& tile_height != 0
                &&& g.2 <= u64::MAX
                &&& offsets@.len() == g.2
                &&& counts@.len() == g.2
                &&& forall|i: int| 0 <= i < offsets@.len() ==> offsets@[i] + counts@[i] <= u64::MAX
            }),
            r matches Ok(l) ==> l@ == (LevelModel {
                index,
                width,
                height,
                tile_width,
                tile_height,
                tiles_across: spec_tile_grid(width as int, height as int, tile_width as int, tile_height as int).0 as u64,
                tiles_down: spec_tile_grid(width as int, height as int, tile_width as int, tile_height as int).1 as u64,
                codec,
                color_model,
                channels,
                ycbcr_subsampling,
                offsets: offsets@,
                counts: counts@,
            }),
            r matches Ok(l) ==> l@.wf(),
            r matches Err(e) ==> (e is MalformedFile || e is InvalidInput),
    {
        let (tiles_across, tiles_down, count) = match tile_count(width, height, tile_width, tile_height) {
            Ok(t) => t,
            Err(e) => return Err(e),
        };
        if offsets.len() as u64 != count || counts.len() as u64 != count {
            return Err(Error::MalformedFile("tile array length does not match tile count"));
        }
        let mut i: usize = 0;
        while i < offsets.len()
            invariant
                i <= offsets@.len(),
                offsets@.len() == counts@.len(),
                forall|j: int| 0 <= j < i ==> offsets@[j] + counts@[j] <= u64::MAX,
            decreases offsets@.len() - i,
        {
            if offsets[i] > u64::MAX - counts[i] as u64 {
                return Err(Error::MalformedFile("tile byte range overflows"));
            }
            i = i + 1;
        }
        Ok(Self {
            index,
            width,
            height,
            tile_width,
            tile_height,
            tiles_across,
            tiles_down,
            codec,
            color_model,
            channels,
            ycbcr_subsampling,
            offsets,
            counts,
        })
    }

    /// Returns level dimensions as `(width, height)`.
    pub fn dimensions(&self) -> (r: (u64, u64))
        ensures
            r == (self@.width, self@.height),
    {
        (self.width, self.height)
    }

    /// Returns this level's width in pixels.
    pub fn width(&self) -> (r: u64)
        ensures
            r == self@.width,
    {
        self.width
    }

    /// Returns this level's height in pixels.
    pub fn height(&self) -> (r: u64)
        ensures
            r == self@.height,
    {
        self.height
    }

    /// Returns tile dimensions as `(width, height)`.
    pub fn tile_size(&self) -> (r: (u64, u64))
        ensures
            r == (self@.tile_width, self@.tile_height),
    {
        (self.tile_width, self.tile_height)
    }

    /// Returns tile grid dimensions as `(tiles_across, tiles_down)`.
    pub fn tile_grid(&self) -> (r: (u64, u64))
        ensures
            r == (self@.tiles_across, self@.tiles_down),
    {
        (self.tiles_across, self.tiles_down)
    }

    /// Returns the total tile count for this level.
    pub fn tile_count(&self) -> (r: u64)
        ensures
            r == self@.tile_count(),
    {
        proof {
            use_type_invariant(self);
        }
        self.tiles_across * self.tiles_down
    }

    /// Returns this level's codec.
    pub fn codec(&self) -> (r: Codec)
        ensures
            r == self@.codec,
    {
        self.codec
    }

    /// Returns this level's color model.
    pub fn color_model(&self) -> (r: ColorModel)
        ensures
            r == self@.color_model,
    {
        self.color_model
    }

    /// Returns this level's channel count.
    pub fn channels(&self) -> (r: u16)
        ensures
            r == self@.channels,
    {
        self.channels
    }

    /// Returns the YCbCr subsampling factors recorded for JPEG YCbCr tiles.
    pub fn ycbcr_subsampling(&self) -> (r: Option<(u16, u16)>)
        ensures
            r == self@.ycbcr_subsampling,
    {
        self.ycbcr_subsampling
    }

    /// Returns a tile by column and row.
    pub fn tile(&self, col: u64, row: u64) -> (r: Result<Tile<'_>, Error>)
        ensures
            r is Ok <==> col < self@.tiles_across && row < self@.tiles_down,
            r matches Ok(t) ==> t@.level == self@ && t@.index == row * self@.tiles_across + col,
            r matches Err(e) ==> e is InvalidInput,
    {
        proof {
            use_type_invariant(self);
        }
        if col >= self.tiles_across || row >= self.tiles_down {
            return Err(Error::InvalidInput("tile coordinate out of range"));
        }
        proof {
            let a = self.tiles_across as int;
            let d = self.tiles_down as int;
            assert(row * a + col < a * d) by (nonlinear_arith)
                requires 0 <= row < d, 0 <= col < a;
        }
        Ok(Tile { level: self, index: row * self.tiles_across + col })
    }

    /// The tiles of this level that intersect a pixel region, the region
    /// first being clamped to the level.
    fn tiles_in_region(&self, region: Region) -> (r: LevelTiles<'_>)
        ensures
            r@.level == self@,
            r@.pending() == crop_indices(self@, region@),
    {
        proof {
            use_type_invariant(self);
            use_type_invariant(&region);
        }
        let x0 = if region.x_start < self.width { region.x_start } else { self.width };
        let x1 = if region.x_end < self.width { region.x_end } else { self.width };
        let y0 = if region.y_start < self.height { region.y_start } else { self.height };
        let y1 = if region.y_end < self.height { region.y_end } else { self.height };
        if x0 >= x1 || y0 >= y1 {
            return LevelTiles::new(self, 0, 0, 0, 0);
        }
        proof {
            lemma_div_ceil(x1 as int, self.tile_width as int);
            lemma_div_ceil(y1 as int, self.tile_height as int);
            lemma_div_ceil(self.width as int, self.tile_width as int);
            lemma_div_ceil(self.height as int, self.tile_height as int);
            lemma_div_mono(x0 as int, x1 as int, self.tile_width as int);
            lemma_div_mono(y0 as int, y1 as int, self.tile_height as int);
            lemma_div_mono(x0 as int, self.width as int, self.tile_width as int);
            lemma_div_mono(y0 as int, self.height as int, self.tile_height as int);
        }
        let start_col = x0 / self.tile_width;
        let end_col = match ceil_div(x1, self.tile_width) {
            Ok(v) => if v < self.tiles_across { v } else { self.tiles_across },
            Err(_) => 0,
        };
        let start_row = y0 / self.tile_height;
        let end_row = match ceil_div(y1, self.tile_height) {
            Ok(v) => if v < self.tiles_down { v } else { self.tiles_down },
            Err(_) => 0,
        };
        LevelTiles::new(self, start_col, start_row, end_col, end_row)
    }
}

/// `a <= b` implies `a / d <= b / d`, and `a < b` implies `a / d < ceil(b / d)`.
pub proof fn lemma_div_mono(a: int, b: int, d: int)
    requires
        0 <= a <= b,
        d > 0,
    ensures
        a / d <= b / d,
        a < b ==> a / d < div_ceil(b, d),
        a < b ==> a / d <= div_ceil(b, d),
{
    assert(a / d <= b / d) by (nonlinear_arith)
        requires 0 <= a <= b, d > 0;
    lemma_div_ceil(b, d);
    if a < b {
        assert(a / d < div_ceil(b, d)) by (nonlinear_arith)
            requires 0 <= a < b, d > 0, div_ceil(b, d) * d >= b;
    }
}

/// A tile of a level, as plain values.
pub struct TileModel {
    pub level: LevelModel,
    pub index: u64,
}

/// Metadata for one encoded tile.
#[derive(Debug, Clone, Copy)]
pub struct Tile<'a> {
    level: &'a Level,
    index: u64,
}

impl<'a> View for Tile<'a> {
    type V = TileModel;

    closed spec fn view(&self) -> TileModel {
        TileModel { level: self.level@, index: self.index }
    }
}

impl<'a> Tile<'a> {
    #[verifier::type_invariant]
    pub open spec fn inv(self) -> bool {
        self@.level.wf() && self@.index < self@.level.tile_count()
    }

    /// Returns the level index containing this tile.
    pub fn level(&self) -> (r: usize)
        ensures
            r == self@.level.index,
    {
        self.level.index
    }

    /// Returns this tile's row-major index.
    pub fn index(&self) -> (r: u64)
        ensures
            r == self@.index,
    {
        self.index
    }

    /// Returns the tile column.
    pub fn col(&self) -> (r: u64)
        ensures
            r == self@.level.tile_col(self@.index as int),
    {
        proof {
            use_type_invariant(self);
            lemma_tile_geometry(self@.level, self@.index as int);
        }
        self.index % self.level.tiles_across
    }

    /// Returns the tile row.
    pub fn row(&self) -> (r: u64)
        ensures
            r == self@.level.tile_row(self@.index as int),
    {
        proof {
            use_type_invariant(self);
            lemma_tile_geometry(self@.level, self@.index as int);
        }
        self.index / self.level.tiles_across
    }

    /// Returns the tile's left pixel coordinate.
    pub fn x(&self) -> (r: u64)
        ensures
            r == self@.level.tile_x(self@.index as int),
    {
        proof {
            use_type_invariant(self);
            lemma_tile_geometry(self@.level, self@.index as int);
        }
        self.col() * self.level.tile_width
    }

    /// Returns the tile's top pixel coordinate.
    pub fn y(&self) -> (r: u64)
        ensures
            r == self@.level.tile_y(self@.index as int),
    {
        proof {
            use_type_invariant(self);
            lemma_tile_geometry(self@.level, self@.index as int);
        }
        self.row() * self.level.tile_height
    }

    /// Returns the tile's clipped pixel width.
    pub fn width(&self) -> (r: u64)
        ensures
            r == self@.level.tile_w(self@.index as int),
    {
        proof {
            use_type_invariant(self);
            lemma_tile_geometry(self@.level, self@.index as int);
        }
        let rest = self.level.width - self.x();
        if self.level.tile_width <= rest { self.level.tile_width } else { rest }
    }

    /// Returns the tile's clipped pixel height.
    pub fn height(&self) -> (r: u64)
        ensures
            r == self@.level.tile_h(self@.index as int),
    {
        proof {
            use_type_invariant(self);
            lemma_tile_geometry(self@.level, self@.index as int);
        }
        let rest = self.level.height - self.y();
        if self.level.tile_height <= rest { self.level.tile_height } else { rest }
    }

    /// Returns the tile's `(x, y)` pixel position.
    pub fn position(&self) -> (r: (u64, u64))
        ensures
            r.0 == self@.level.tile_x(self@.index as int),
            r.1 == self@.level.tile_y(self@.index as int),
    {
        (self.x(), self.y())
    }

    /// Returns the tile's clipped `(width, height)`.
    pub fn size(&self) -> (r: (u64, u64))
        ensures
            r.0 == self@.level.tile_w(self@.index as int),
            r.1 == self@.level.tile_h(self@.index as int),
    {
        (self.width(), self.height())
    }

    /// Returns the encoded tile byte range in the ZIF file.
    pub fn bytes(&self) -> (r: Range<u64>)
        ensures
            r.start == self@.level.tile_start(self@.index as int),
            r.end == self@.level.tile_end(self@.index as int),
    {
        proof {
            use_type_invariant(self);
            use_type_invariant(self.level);
        }
        let n = self.level.offsets.len();
        assert(self.index < n);
        let i = self.index as usize;
        let start = self.level.offsets[i];
        start..start + self.level.counts[i] as u64
    }

    /// Returns a byte-range request for the encoded tile.
    pub fn req(&self) -> (r: Request)
        ensures
            r@.start == self@.level.tile_start(self@.index as int),
            r@.end == self@.level.tile_end(self@.index as int),
    {
        let range = self.bytes();
        match Request::new(range) {
            Ok(req) => req,
            Err(_) => Request { start: 0, end: 0 },
        }
    }

    /// Returns the codec used by this tile's level.
    pub fn codec(&self) -> (r: Codec)
        ensures
            r == self@.level.codec,
    {
        self.level.codec
    }
}

/// The iteration state of a row-major walk over a block of tiles.
pub struct LevelTilesModel {
    pub level: LevelModel,
    pub next_col: u64,
    pub next_row: u64,
    pub start_col: u64,
    pub end_col: u64,
    pub end_row: u64,
}

impl LevelTilesModel {
    /// The tile indices the walk has still to produce, in order.
    pub open spec fn pending(self) -> Seq<int> {
        if self.next_row >= self.end_row || self.next_col >= self.end_col {
            Seq::empty()
        } else {
            row_indices(self.level.tiles_across as int, self.next_row as int, self.next_col as int, self.end_col as int)
                + grid_indices(
                self.level.tiles_across as int,
                self.next_row + 1,
                self.end_row as int,
                self.start_col as int,
                self.end_col as int,
            )
        }
    }
}

/// A row-major walk over a rectangular block of the tiles of a level.
pub struct LevelTiles<'a> {
    level: &'a Level,
    next_col: u64,
    next_row: u64,
    start_col: u64,
    end_col: u64,
    end_row: u64,
}

impl<'a> View for LevelTiles<'a> {
    type V = LevelTilesModel;

    closed spec fn view(&self) -> LevelTilesModel {
        LevelTilesModel {
            level: self.level@,
            next_col: self.next_col,
            next_row: self.next_row,
            start_col: self.start_col,
            end_col: self.end_col,
            end_row: self.end_row,
        }
    }
}

impl<'a> LevelTiles<'a> {
    #[verifier::type_invariant]
    pub open spec fn inv(self) -> bool {
        &&& self@.level.wf()
        &&& self@.start_col <= self@.next_col <= self@.end_col <= self@.level.tiles_across
        &&& self@.end_row <= self@.level.tiles_down
    }

    fn new(level: &'a Level, start_col: u64, start_row: u64, end_col: u64, end_row: u64) -> (r: Self)
        requires
            start_col <= end_col <= level@.tiles_across,
            end_row <= level@.tiles_down,
        ensures
            r@ == (LevelTilesModel {
                level: level@,
                next_col: start_col,
                next_row: start_row,
                start_col,
                end_col,
                end_row,
            }),
    {
        proof {
            use_type_invariant(level);
        }
        Self { level, next_col: start_col, next_row: start_row, start_col, end_col, end_row }
    }

    /// Produces the next tile of the walk, in row-major order.
    pub fn next(&mut self) -> (r: Option<Tile<'a>>)
        ensures
            final(self)@.level == old(self)@.level,
            old(self)@.pending().len() == 0 ==> r is None && final(self)@.pending() == old(self)@.pending(),
            old(self)@.pending().len() > 0 ==> (r matches Some(t) && t@.level == old(self)@.level
                && t@.index == old(self)@.pending()[0]
                && final(self)@.pending() == old(self)@.pending().drop_first()),
    {
        proof {
            use_type_invariant(&*self);
        }
        if self.next_row >= self.end_row || self.next_col >= self.end_col {
            return None;
        }
        let ghost old_pending = self@.pending();
        let across = self.level.tiles_across;
        proof {
            let a = across as int;
            let d = self@.level.tiles_down as int;
            assert(self.next_row * a + self.next_col < a * d) by (nonlinear_arith)
                requires 0 <= self.next_row < d, 0 <= self.next_col < a;
        }
        let index = self.next_row * across + self.next_col;
        self.next_col = self.next_col + 1;
        if self.next_col >= self.end_col {
            self.next_col = self.start_col;
            self.next_row = self.next_row + 1;
        }
        proof {
            assert(old_pending[0] == index);
            if self.start_col < self.end_col && self.next_row < self.end_row && self.next_col == self.start_col {
                assert(grid_indices(across as int, self.next_row as int, self.end_row as int, self.start_col as int, self.end_col as int)
                    == row_indices(across as int, self.next_row as int, self.start_col as int, self.end_col as int)
                        + grid_indices(across as int, self.next_row + 1, self.end_row as int, self.start_col as int, self.end_col as int));
            }
            assert(self@.pending() =~= old_pending.drop_first());
        }
        Some(Tile { level: self.level, index })
    }

    /// The number of tiles the walk has still to produce.
    pub fn count(self) -> (r: u64)
        ensures
            r == self@.pending().len(),
    {
        let mut it = self;
        let mut n: u64 = 0;
        proof {
            use_type_invariant(&it);
            it@.lemma_pending_len();
        }
        loop
            invariant
                n + it@.pending().len() == self@.pending().len(),
                self@.pending().len() <= u64::MAX,
            decreases it@.pending().len(),
        {
            match it.next() {
                Some(_) => {
                    n = n + 1;
                },
                None => {
                    return n;
                },
            }
        }
    }

    /// Collects the tiles the walk has still to produce, in order.
    pub fn into_vec(self) -> (r: Vec<Tile<'a>>)
        ensures
            r@.len() == self@.pending().len(),
            forall|i: int| 0 <= i < r@.len() ==> (#[trigger] r@[i])@.index == self@.pending()[i]
                && r@[i]@.level == self@.level,
    {
        let mut it = self;
        let mut out: Vec<Tile<'a>> = Vec::new();
        loop
            invariant
                it@.level == self@.level,
                out@.len() + it@.pending().len() == self@.pending().len(),
                forall|i: int| 0 <= i < out@.len() ==> (#[trigger] out@[i])@.index == self@.pending()[i]
                    && out@[i]@.level == self@.level,
                forall|i: int| 0 <= i < it@.pending().len() ==> #[trigger] it@.pending()[i] == self@.pending()[out@.len() + i],
            decreases it@.pending().len(),
        {
            let ghost before = it@.pending();
            match it.next() {
                Some(t) => {
                    out.push(t);
                    proof {
                        assert forall|i: int| 0 <= i < it@.pending().len() implies #[trigger] it@.pending()[i]
                            == self@.pending()[out@.len() + i] by {
                            assert(it@.pending()[i] == before[i + 1]);
                        }
                    }
                },
                None => {
                    return out;
                },
            }
        }
    }
}

impl LevelTilesModel {
    /// The walk has at most as many tiles left as its level has tiles.
    pub proof fn lemma_pending_len(self)
        requires
            self.level.wf(),
            self.start_col <= self.next_col <= self.end_col <= self.level.tiles_across,
            self.end_row <= self.level.tiles_down,
        ensures
            self.pending().len() <= self.level.tile_count(),
    {
        if !(self.next_row >= self.end_row || self.next_col >= self.end_col) {
            let a = self.level.tiles_across as int;
            let d = self.level.tiles_down as int;
            let r = self.next_row as int;
            let e = self.end_row as int;
            let w = self.end_col - self.start_col;
            lemma_grid_indices(a, r + 1, e, self.start_col as int, self.end_col as int);
            assert((self.end_col - self.next_col) + (e - (r + 1)) * w <= a * d) by (nonlinear_arith)
                requires 0 <= r < e <= d, 0 < w <= a, self.end_col - self.next_col <= w;
        }
    }
}

/// The tiles of a level that a pixel region selects: the region is clamped
/// to the level, and the selected block runs from the tile holding the first
/// covered pixel to the tile holding the last, in both axes.
pub open spec fn crop_indices(l: LevelModel, region: (Range<u64>, Range<u64>)) -> Seq<int> {
    let x0 = if region.0.start < l.width { region.0.start } else { l.width };
    let x1 = if region.0.end < l.width { region.0.end } else { l.width };
    let y0 = if region.1.start < l.height { region.1.start } else { l.height };
    let y1 = if region.1.end < l.height { region.1.end } else { l.height };
    if x0 >= x1 || y0 >= y1 {
        Seq::empty()
    } else {
        let c1 = div_ceil(x1 as int, l.tile_width as int);
        let r1 = div_ceil(y1 as int, l.tile_height as int);
        grid_indices(
            l.tiles_across as int,
            (y0 as int) / (l.tile_height as int),
            if r1 < l.tiles_down { r1 } else { l.tiles_down as int },
            (x0 as int) / (l.tile_width as int),
            if c1 < l.tiles_across { c1 } else { l.tiles_across as int },
        )
    }
}

/// How a chain of levels is interpreted: one level or halving dimensions make
/// a pyramid, identical dimensions a time series, anything else a collection.
pub open spec fn spec_classify(levels: Seq<LevelModel>) -> ChainKind {
    if levels.len() <= 1 {
        ChainKind::Pyramid
    } else if forall|i: int| 0 <= i < levels.len() ==> (#[trigger] levels[i]).width == levels[0].width
        && levels[i].height == levels[0].height {
        ChainKind::TimeSeries
    } else if forall|i: int| 0 <= i < levels.len() - 1 ==> (#[trigger] levels[i + 1]).width == div_ceil(
        levels[i].width as int,
        2,
    ) && levels[i + 1].height == div_ceil(levels[i].height as int, 2) {
        ChainKind::Pyramid
    } else {
        ChainKind::Collection
    }
}

/// How a chain of levels is classified, stated by the sizes alone: one
/// level is a pyramid; two or more levels all of one size are a time
/// series; otherwise the chain is a pyramid exactly when every level is
/// the one before halved, rounding up (`w` halves to `h` when
/// `2h - 1 <= w <= 2h`), in both dimensions, and a collection otherwise.
pub proof fn lemma_classify_by_sizes(levels: Seq<LevelModel>)
    ensures
        levels.len() <= 1 ==> spec_classify(levels) == ChainKind::Pyramid,
        levels.len() >= 2 && (forall|i: int| 0 <= i < levels.len() ==> (#[trigger] levels[i]).width == levels[0].width
            && levels[i].height == levels[0].height) ==> spec_classify(levels) == ChainKind::TimeSeries,
        levels.len() >= 2 && !(forall|i: int| 0 <= i < levels.len() ==> (#[trigger] levels[i]).width == levels[0].width
            && levels[i].height == levels[0].height) ==> (spec_classify(levels) == ChainKind::Pyramid <==> forall|i: int|
            0 <= i < levels.len() - 1 ==> 2 * (#[trigger] levels[i + 1]).width - 1 <= levels[i].width <= 2
                * levels[i + 1].width && 2 * levels[i + 1].height - 1 <= levels[i].height <= 2 * levels[i + 1].height),
        levels.len() >= 2 && !(forall|i: int| 0 <= i < levels.len() ==> (#[trigger] levels[i]).width == levels[0].width
            && levels[i].height == levels[0].height) ==> spec_classify(levels) != ChainKind::TimeSeries,
{
    assert forall|i: int| 0 <= i < levels.len() - 1 implies ((#[trigger] levels[i + 1]).width == div_ceil(
        levels[i].width as int,
        2,
    ) <==> 2 * levels[i + 1].width - 1 <= levels[i].width <= 2 * levels[i + 1].width) && (levels[i + 1].height
        == div_ceil(levels[i].height as int, 2) <==> 2 * levels[i + 1].height - 1 <= levels[i].height <= 2
        * levels[i + 1].height) by {
        lemma_div_ceil(levels[i].width as int, 2);
        lemma_div_ceil(levels[i].height as int, 2);
    }
}

fn half_up(v: u64) -> (r: u64)
    ensures
        r == div_ceil(v as int, 2),
{
    proof {
        lemma_div_ceil(v as int, 2);
    }
    v / 2 + v % 2
}

fn classify(levels: &Vec<Level>) -> (r: ChainKind)
    requires
        levels@.len() > 0,
    ensures
        r == spec_classify(levels@.map_values(|l: Level| l@)),
{
    let ghost ls = levels@.map_values(|l: Level| l@);
    if levels.len() <= 1 {
        return ChainKind::Pyramid;
    }
    let w0 = levels[0].width;
    let h0 = levels[0].height;
    let mut same = true;
    let mut i: usize = 0;
    while i < levels.len()
        invariant
            i <= levels@.len(),
            ls == levels@.map_values(|l: Level| l@),
            w0 == ls[0].width,
            h0 == ls[0].height,
            same <==> forall|j: int| 0 <= j < i ==> ls[j].width == w0 && ls[j].height == h0,
        decreases levels@.len() - i,
    {
        assert(ls[i as int] == levels@[i as int]@);
        if levels[i].width != w0 || levels[i].height != h0 {
            same = false;
        }
        i = i + 1;
    }
    if same {
        return ChainKind::TimeSeries;
    }
    let mut pyramid = true;
    let mut i: usize = 0;
    while i < levels.len() - 1
        invariant
            levels@.len() >= 2,
            i + 1 <= levels@.len(),
            ls == levels@.map_values(|l: Level| l@),
            pyramid <==> forall|j: int| 0 <= j < i ==> (#[trigger] ls[j + 1]).width == div_ceil(ls[j].width as int, 2)
                && ls[j + 1].height == div_ceil(ls[j].height as int, 2),
        decreases levels@.len() - i,
    {
        assert(ls[i as int] == levels@[i as int]@);
        assert(ls[i + 1] == levels@[i + 1]@);
        if levels[i + 1].width != half_up(levels[i].width) || levels[i + 1].height != half_up(levels[i].height) {
            pyramid = false;
        }
        proof {
            let k = i as int;
            assert(ls[k + 1] == levels@[k + 1]@);
        }
        i = i + 1;
    }
    if pyramid {
        ChainKind::Pyramid
    } else {
        ChainKind::Collection
    }
}

/// The parsed image, as plain values.
pub struct ZifModel {
    pub levels: Seq<LevelModel>,
    pub kind: ChainKind,
}

impl ZifModel {
    /// At least one level, levels numbered by their position, every level
    /// well formed, and the chain classified from the level dimensions.
    pub open spec fn wf(self) -> bool {
        &&& self.levels.len() > 0
        &&& forall|i: int| 0 <= i < self.levels.len() ==> (#[trigger] self.levels[i]).index == i && self.levels[i].wf()
        &&& self.kind == spec_classify(self.levels)
    }
}

/// Parsed ZIF metadata.
#[derive(Debug)]
pub struct Zif {
    levels: Vec<Level>,
    kind: ChainKind,
}

impl View for Zif {
    type V = ZifModel;

    closed spec fn view(&self) -> ZifModel {
        ZifModel { levels: self.levels@.map_values(|l: Level| l@), kind: self.kind }
    }
}

impl Clone for Zif {
    fn clone(&self) -> (r: Self)
        ensures
            r@ == self@,
    {
        proof {
            use_type_invariant(self);
        }
        let mut levels: Vec<Level> = Vec::new();
        let mut i: usize = 0;
        while i < self.levels.len()
            invariant
                i <= self.levels@.len(),
                levels@.len() == i,
                forall|j: int| 0 <= j < i ==> (#[trigger] levels@[j])@ == self.levels@[j]@,
            decreases self.levels@.len() - i,
        {
            levels.push(self.levels[i].clone());
            i = i + 1;
        }
        assert(levels@.map_values(|l: Level| l@) =~= self.levels@.map_values(|l: Level| l@));
        Zif { levels, kind: self.kind }
    }
}

impl Zif {
    #[verifier::type_invariant]
    pub open spec fn inv(self) -> bool {
        self@.wf()
    }

    pub(crate) fn new(levels: Vec<Level>) -> (r: Self)
        requires
            levels@.len() > 0,
            forall|i: int| 0 <= i < levels@.len() ==> (#[trigger] levels@[i])@.index == i && levels@[i]@.wf(),
        ensures
            r@.levels == levels@.map_values(|l: Level| l@),
            r@.kind == spec_classify(r@.levels),
    {
        let kind = classify(&levels);
        Self { levels, kind }
    }

    /// Returns base-level dimensions as `(width, height)`.
    pub fn dimensions(&self) -> (r: (u64, u64))
        ensures
            r == (self@.levels[0].width, self@.levels[0].height),
    {
        proof {
            use_type_invariant(self);
        }
        self.levels[0].dimensions()
    }

    /// Returns the base-level width in pixels.
    pub fn width(&self) -> (r: u64)
        ensures
            r == self@.levels[0].width,
    {
        proof {
            use_type_invariant(self);
        }
        self.levels[0].width
    }

    /// Returns the base-level height in pixels.
    pub fn height(&self) -> (r: u64)
        ensures
            r == self@.levels[0].height,
    {
        proof {
            use_type_invariant(self);
        }
        self.levels[0].height
    }

    /// Returns the number of image directories/levels.
    pub fn level_count(&self) -> (r: usize)
        ensures
            r == self@.levels.len(),
    {
        self.levels.len()
    }

    /// Returns all parsed levels.
    pub fn levels(&self) -> (r: &[Level])
        ensures
            r@.len() == self@.levels.len(),
            forall|i: int| 0 <= i < r@.len() ==> (#[trigger] r@[i])@ == self@.levels[i],
    {
        self.levels.as_slice()
    }

    /// Returns a level by index.
    pub fn level(&self, index: usize) -> (r: Result<&Level, Error>)
        ensures
            r is Ok <==> index < self@.levels.len(),
            r matches Ok(l) ==> l@ == self@.levels[index as int],
            r matches Err(e) ==> e is InvalidInput,
    {
        if index < self.levels.len() {
            Ok(&self.levels[index])
        } else {
            Err(Error::InvalidInput("level index out of range"))
        }
    }

    /// Returns the base-level codec.
    pub fn codec(&self) -> (r: Codec)
        ensures
            r == self@.levels[0].codec,
    {
        proof {
            use_type_invariant(self);
        }
        self.levels[0].codec
    }

    /// Returns the base-level color model.
    pub fn color_model(&self) -> (r: ColorModel)
        ensures
            r == self@.levels[0].color_model,
    {
        proof {
            use_type_invariant(self);
        }
        self.levels[0].color_model
    }

    /// Returns the base-level channel count.
    pub fn channels(&self) -> (r: u16)
        ensures
            r == self@.levels[0].channels,
    {
        proof {
            use_type_invariant(self);
        }
        self.levels[0].channels
    }

    /// Returns how the directory chain is classified.
    pub fn chain_kind(&self) -> (r: ChainKind)
        ensures
            r == self@.kind,
    {
        self.kind
    }

    /// Iterates every tile in a level in row-major order.
    pub fn get_level_tiles(&self, level: usize) -> (r: Result<LevelTiles<'_>, Error>)
        ensures
            r is Ok <==> level < self@.levels.len(),
            r matches Ok(t) ==> t@.level == self@.levels[level as int]
                && t@.pending() == Seq::new(self@.levels[level as int].tile_count() as nat, |i: int| i),
            r matches Err(e) ==> e is InvalidInput,
    {
        let l = match self.level(level) {
            Ok(l) => l,
            Err(e) => return Err(e),
        };
        proof {
            use_type_invariant(l);
        }
        let tiles = LevelTiles::new(l, 0, 0, l.tiles_across, l.tiles_down);
        proof {
            let a = l@.tiles_across as int;
            let d = l@.tiles_down as int;
            if a > 0 && d > 0 {
                lemma_full_grid_is_row_major(a, d);
                assert(grid_indices(a, 0, d, 0, a) == row_indices(a, 0, 0, a) + grid_indices(a, 1, d, 0, a));
            } else {
                assert(a * d == 0) by (nonlinear_arith)
                    requires a == 0 || d == 0;
            }
            assert(tiles@.pending() =~= Seq::new(l@.tile_count() as nat, |i: int| i));
        }
        Ok(tiles)
    }

    /// Iterates tiles intersecting a pixel region at a level; the region is
    /// `(x_range, y_range)` in pixels at that level.
    pub fn get_cropped_level_tiles(&self, level: usize, region: (Range<u64>, Range<u64>)) -> (r: Result<LevelTiles<'_>, Error>)
        ensures
            r is Ok <==> level < self@.levels.len() && region.0.start <= region.0.end && region.1.start <= region.1.end,
            r matches Ok(t) ==> t@.level == self@.levels[level as int]
                && t@.pending() == crop_indices(self@.levels[level as int], region),
            r matches Err(e) ==> e is InvalidInput,
    {
        let l = match self.level(level) {
            Ok(l) => l,
            Err(e) => return Err(e),
        };
        let (x, y) = region;
        match Region::new(x, y) {
            Ok(reg) => Ok(l.tiles_in_region(reg)),
            Err(e) => Err(e),
        }
    }
}

/// Borrowed view of parsed ZIF metadata. While reading is in progress it may
/// describe only the fully parsed prefix of the directory chain.
#[derive(Debug, Clone, Copy)]
pub struct ZifView<'a> {
    zif: &'a Zif,
}

impl<'a> View for ZifView<'a> {
    type V = ZifModel;

    closed spec fn view(&self) -> ZifModel {
        self.zif@
    }
}

impl<'a> ZifView<'a> {
    pub(crate) fn new(zif: &'a Zif) -> (r: Self)
        ensures
            r@ == zif@,
    {
        Self { zif }
    }

    /// Returns the underlying owned metadata object.
    pub fn as_zif(&self) -> (r: &'a Zif)
        ensures
            r@ == self@,
    {
        self.zif
    }

    /// Returns base-level dimensions as `(width, height)`.
    pub fn dimensions(&self) -> (r: (u64, u64))
        ensures
            r == (self@.levels[0].width, self@.levels[0].height),
    {
        self.zif.dimensions()
    }

    /// Returns the base-level width in pixels.
    pub fn width(&self) -> (r: u64)
        ensures
            r == self@.levels[0].width,
    {
        self.zif.width()
    }

    /// Returns the base-level height in pixels.
    pub fn height(&self) -> (r: u64)
        ensures
            r == self@.levels[0].height,
    {
        self.zif.height()
    }

    /// Returns the number of parsed image directories/levels.
    pub fn level_count(&self) -> (r: usize)
        ensures
            r == self@.levels.len(),
    {
        self.zif.level_count()
    }

    /// Returns all parsed levels.
    pub fn levels(&self) -> (r: &'a [Level])
        ensures
            r@.len() == self@.levels.len(),
            forall|i: int| 0 <= i < r@.len() ==> (#[trigger] r@[i])@ == self@.levels[i],
    {
        self.zif.levels()
    }

    /// Returns a level by index.
    pub fn level(&self, index: usize) -> (r: Result<&'a Level, Error>)
        ensures
            r is Ok <==> index < self@.levels.len(),
            r matches Ok(l) ==> l@ == self@.levels[index as int],
            r matches Err(e) ==> e is InvalidInput,
    {
        self.zif.level(index)
    }

    /// Returns the base-level codec.
    pub fn codec(&self) -> (r: Codec)
        ensures
            r == self@.levels[0].codec,
    {
        self.zif.codec()
    }

    /// Returns the base-level color model.
    pub fn color_model(&self) -> (r: ColorModel)
        ensures
            r == self@.levels[0].color_model,
    {
        self.zif.color_model()
    }

    /// Returns the base-level channel count.
    pub fn channels(&self) -> (r: u16)
        ensures
            r == self@.levels[0].channels,
    {
        self.zif.channels()
    }

    /// Returns how the parsed directory chain prefix is classified.
    pub fn chain_kind(&self) -> (r: ChainKind)
        ensures
            r == self@.kind,
    {
        self.zif.chain_kind()
    }

    /// Iterates every tile in a level in row-major order.
    pub fn get_level_tiles(&self, level: usize) -> (r: Result<LevelTiles<'a>, Error>)
        ensures
            r is Ok <==> level < self@.levels.len(),
            r matches Ok(t) ==> t@.level == self@.levels[level as int]
                && t@.pending() == Seq::new(self@.levels[level as int].tile_count() as nat, |i: int| i),
            r matches Err(e) ==> e is InvalidInput,
    {
        self.zif.get_level_tiles(level)
    }

    /// Iterates tiles intersecting a pixel region at a level.
    pub fn get_cropped_level_tiles(&self, level: usize, region: (Range<u64>, Range<u64>)) -> (r: Result<LevelTiles<'a>, Error>)
        ensures
            r is Ok <==> level < self@.levels.len() && region.0.start <= region.0.end && region.1.start <= region.1.end,
            r matches Ok(t) ==> t@.level == self@.levels[level as int]
                && t@.pending() == crop_indices(self@.levels[level as int], region),
            r matches Err(e) ==> e is InvalidInput,
    {
        self.zif.get_cropped_level_tiles(level, region)
    }
}

/// `v` clamped to at most `hi`.
pub open spec fn clamped(v: u64, hi: u64) -> int {
    if v < hi {
        v as int
    } else {
        hi as int
    }
}

/// Whether tile `i` of level `l` holds a pixel of the rectangle
/// `[x0, x1) x [y0, y1)`.
pub open spec fn tile_meets(l: LevelModel, i: int, x0: int, x1: int, y0: int, y1: int) -> bool {
    &&& x0 < x1
    &&& y0 < y1
    &&& l.tile_x(i) < x1
    &&& x0 < l.tile_x(i) + l.tile_width
    &&& l.tile_y(i) < y1
    &&& y0 < l.tile_y(i) + l.tile_height
}

/// Whether tile `i` of level `l` holds a pixel of `region` clamped to the
/// level.
pub open spec fn tile_in_region(l: LevelModel, i: int, region: (Range<u64>, Range<u64>)) -> bool {
    tile_meets(
        l,
        i,
        clamped(region.0.start, l.width),
        clamped(region.0.end, l.width),
        clamped(region.1.start, l.height),
        clamped(region.1.end, l.height),
    )
}

/// In one axis: the block from the tile holding pixel `x0` to the tile
/// holding pixel `x1 - 1` is the set of tiles that hold a pixel of `[x0, x1)`.
#[verifier::spinoff_prover]
proof fn lemma_axis_block(t: int, x0: int, x1: int, n: int, c: int)
    requires
        t > 0,
        0 <= x0 < x1,
        x1 <= n * t,
        0 <= c,
    ensures
        (x0 / t <= c < (if div_ceil(x1, t) < n { div_ceil(x1, t) } else { n })) <==> (c * t < x1 && x0 < c * t + t
            && c < n),
{
    lemma_div_ceil(x1, t);
    let q = x0 / t;
    let e = div_ceil(x1, t);
    vstd::arithmetic::div_mod::lemma_fundamental_div_mod(x0, t);
    assert(0 <= x0 % t < t) by (nonlinear_arith)
        requires t > 0;
    if q <= c && c < e {
        assert(x0 < c * t + t) by (nonlinear_arith)
            requires x0 == t * q + x0 % t, x0 % t < t, q <= c, t > 0;
        assert(c * t < x1) by (nonlinear_arith)
            requires c <= e - 1, (e - 1) * t < x1, t > 0;
    }
    if c * t < x1 && x0 < c * t + t {
        assert(q <= c) by (nonlinear_arith)
            requires x0 == t * q + x0 % t, 0 <= x0 % t, x0 < c * t + t, t > 0;
        assert(c < e) by (nonlinear_arith)
            requires c * t < x1, e * t >= x1, t > 0;
    }
}

/// The elements of a block of the tile grid are the indices of the tiles in
/// its rows and columns, in increasing order.
#[verifier::spinoff_prover]
proof fn lemma_block_members(a: int, r0: int, r1: int, c0: int, c1: int)
    requires
        0 <= r0 < r1,
        0 <= c0 < c1 <= a,
    ensures
        forall|i: int|
            grid_indices(a, r0, r1, c0, c1).contains(i) <==> (0 <= i && r0 <= i / a < r1 && c0 <= i % a < c1),
        forall|j: int, k: int|
            0 <= j < k < grid_indices(a, r0, r1, c0, c1).len() ==> grid_indices(a, r0, r1, c0, c1)[j] < grid_indices(
                a,
                r0,
                r1,
                c0,
                c1,
            )[k],
{
    let g = grid_indices(a, r0, r1, c0, c1);
    let w = c1 - c0;
    lemma_grid_indices(a, r0, r1, c0, c1);
    assert forall|i: int| g.contains(i) implies 0 <= i && r0 <= i / a < r1 && c0 <= i % a < c1 by {
        let j = choose|j: int| 0 <= j < g.len() && g[j] == i;
        let q = j / w;
        let m = j % w;
        vstd::arithmetic::div_mod::lemma_fundamental_div_mod(j, w);
        assert(0 <= m < w) by (nonlinear_arith)
            requires m == j % w, w > 0;
        assert(0 <= q < r1 - r0) by (nonlinear_arith)
            requires 0 <= j < (r1 - r0) * w, j == w * q + m, 0 <= m < w, w > 0;
        assert(i == (r0 + q) * a + (c0 + m));
        vstd::arithmetic::div_mod::lemma_fundamental_div_mod_converse(i, a, r0 + q, c0 + m);
        assert(0 <= i) by (nonlinear_arith)
            requires i == (r0 + q) * a + (c0 + m), r0 + q >= 0, c0 + m >= 0, a > 0;
    }
    assert forall|i: int| 0 <= i && r0 <= i / a < r1 && c0 <= i % a < c1 implies g.contains(i) by {
        let r = i / a;
        let c = i % a;
        let j = (r - r0) * w + (c - c0);
        vstd::arithmetic::div_mod::lemma_fundamental_div_mod(i, a);
        assert(0 <= j < (r1 - r0) * w) by (nonlinear_arith)
            requires j == (r - r0) * w + (c - c0), 0 <= r - r0 < r1 - r0, 0 <= c - c0 < w;
        vstd::arithmetic::div_mod::lemma_fundamental_div_mod_converse(j, w, r - r0, c - c0);
        assert(g[j] == (r0 + (r - r0)) * a + c0 + (c - c0));
        assert(g[j] == i) by (nonlinear_arith)
            requires g[j] == r * a + c, i == a * r + c;
    }
    assert forall|j: int, k: int| 0 <= j < k < g.len() implies g[j] < g[k] by {
        vstd::arithmetic::div_mod::lemma_fundamental_div_mod(j, w);
        vstd::arithmetic::div_mod::lemma_fundamental_div_mod(k, w);
        let qj = j / w;
        let qk = k / w;
        let mj = j % w;
        let mk = k % w;
        assert(0 <= mj < w && 0 <= mk < w) by (nonlinear_arith)
            requires mj == j % w, mk == k % w, w > 0;
        assert(qj < qk || (qj == qk && mj < mk)) by (nonlinear_arith)
            requires j == w * qj + mj, k == w * qk + mk, 0 <= mj < w, 0 <= mk < w, j < k;
        if qj < qk {
            assert((r0 + qj) * a + a <= (r0 + qk) * a) by (nonlinear_arith)
                requires qj < qk, a > 0;
        }
        assert(g[j] == (r0 + qj) * a + c0 + mj);
        assert(g[k] == (r0 + qk) * a + c0 + mk);
    }
}

/// Cropping selects the tiles that hold a pixel of the region: a cropped
/// walk visits exactly the tiles of the level that hold a pixel of the
/// region clamped to the level, each once, in row-major order.
#[verifier::spinoff_prover]
pub proof fn lemma_crop_selects_covering_tiles(l: LevelModel, region: (Range<u64>, Range<u64>))
    requires
        l.wf(),
    ensures
        forall|i: int|
            crop_indices(l, region).contains(i) <==> (0 <= i < l.tile_count() && tile_in_region(l, i, region)),
        forall|j: int, k: int|
            0 <= j < k < crop_indices(l, region).len() ==> crop_indices(l, region)[j] < crop_indices(l, region)[k],
{
    let x0 = clamped(region.0.start, l.width);
    let x1 = clamped(region.0.end, l.width);
    let y0 = clamped(region.1.start, l.height);
    let y1 = clamped(region.1.end, l.height);
    let a = l.tiles_across as int;
    let d = l.tiles_down as int;
    let tw = l.tile_width as int;
    let th = l.tile_height as int;
    let c = crop_indices(l, region);
    if x0 >= x1 || y0 >= y1 {
        assert(c.len() == 0);
    } else {
        lemma_div_ceil(l.width as int, tw);
        lemma_div_ceil(l.height as int, th);
        lemma_div_mono(x0, l.width as int, tw);
        lemma_div_mono(y0, l.height as int, th);
        lemma_div_mono(x0, x1, tw);
        lemma_div_mono(y0, y1, th);
        let e1 = div_ceil(x1, tw);
        let f1 = div_ceil(y1, th);
        let c1 = if e1 < a {
            e1
        } else {
            a
        };
        let r1 = if f1 < d {
            f1
        } else {
            d
        };
        lemma_block_members(a, y0 / th, r1, x0 / tw, c1);
        assert forall|i: int| c.contains(i) <==> (0 <= i < l.tile_count() && tile_in_region(l, i, region)) by {
            if 0 <= i {
                vstd::arithmetic::div_mod::lemma_fundamental_div_mod(i, a);
                let col = i % a;
                let row = i / a;
                assert(0 <= col < a && 0 <= row) by (nonlinear_arith)
                    requires col == i % a, row == i / a, a > 0, 0 <= i;
                lemma_axis_block(tw, x0, x1, a, col);
                lemma_axis_block(th, y0, y1, d, row);
                assert(i < a * d <==> row < d) by (nonlinear_arith)
                    requires i == a * row + col, 0 <= col < a, 0 <= row;
            }
        }
    }
}
} // verus!
