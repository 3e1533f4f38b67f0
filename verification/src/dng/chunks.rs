//! How an image's pixel data is cut into strips or tiles, which sample encodings and interleave
//! factors a decode accepts, and how the decoded chunks are put back together into one
//! row-major image.
use vstd::prelude::*;
use crate::error::{Error, ErrorKind, Result};
use crate::dng::values::{Compression, SampleFormat};
use crate::dng::compression::MSG_NOT_DECODABLE;
use crate::dng::lossless_jpeg;
use crate::dng::lossless_jpeg::round_trip::is_encoding;
use crate::dng::lossless_jpeg::decoded;

verus! {

/// The message for a sample count that overflows `usize`.
pub const MSG_DIMS_OVERFLOW: &'static str = "DNG: dimensions overflow";

/// The message for a tiled image without `TileWidth`.
pub const MSG_NO_TILE_WIDTH: &'static str = "DNG: tiled IFD missing TileWidth";

/// The message for a tiled image without `TileLength`.
pub const MSG_NO_TILE_LENGTH: &'static str = "DNG: tiled IFD missing TileLength";

/// The message for a zero tile dimension.
pub const MSG_ZERO_TILE: &'static str = "DNG: tile dimensions must be non-zero";

/// The message for `RowsPerStrip` zero.
pub const MSG_ZERO_ROWS_PER_STRIP: &'static str = "DNG: RowsPerStrip must be non-zero";

/// The message for an interleave factor of zero or beyond its axis.
pub const MSG_INTERLEAVE: &'static str = "DNG: interleave factor out of valid range";

/// The message for floating-point sample data.
pub const MSG_FLOAT_SAMPLES: &'static str = "DNG: floating-point sample data is not supported";

/// The message for any other sample encoding than unsigned integers.
pub const MSG_UNSIGNED_ONLY: &'static str = "DNG: only unsigned-integer samples are supported";

/// The message for a strip beyond the image's last row.
pub const MSG_EXTRA_STRIPS: &'static str = "DNG: more strips than image rows";

/// The message for chunks that hold fewer samples than the image.
pub const MSG_TRUNCATED_DATA: &'static str = "DNG: raw image data is truncated";

/// The message for a tile list that does not cover the tile grid.
pub const MSG_TILE_COUNT: &'static str = "DNG: tile count must cover the image grid";

/// The message for a lossless-JPEG chunk with another sample count than its chunk.
pub const MSG_JPEG_COUNT: &'static str = "DNG: lossless-JPEG sample count mismatch";

/// `a * b * c`, refused when `a * b` or the whole product overflows `usize`.
pub fn checked_product(a: usize, b: usize, c: usize) -> (r: Result<usize>)
    ensures
        match r {
            Ok(n) => n == a * b * c && a * b <= usize::MAX,
            Err(e) => (a * b > usize::MAX || a * b * c > usize::MAX) && e == Error::InvalidInput(
                MSG_DIMS_OVERFLOW,
            ),
        },
{
    match a.checked_mul(b) {
        Some(ab) => match ab.checked_mul(c) {
            Some(n) => Ok(n),
            None => Err(Error::InvalidInput(MSG_DIMS_OVERFLOW)),
        },
        None => Err(Error::InvalidInput(MSG_DIMS_OVERFLOW)),
    }
}

/// How an image's data is cut into chunks.
#[derive(Debug, Clone, Copy, PartialEq, Eq, Structural)]
pub enum ChunkGrid {
    /// Row bands of `rows_per_strip` rows (fewer for the last), each a full image width.
    Strips { rows_per_strip: usize },
    /// A grid of `tile_width x tile_height` tiles, `across` by `down`. Every stored tile is full
    /// size: edge tiles carry padding that assembly crops.
    Tiles { tile_width: usize, tile_height: usize, across: usize, down: usize },
}

/// `ceil(n / d)`.
pub open spec fn ceil_div(n: nat, d: nat) -> nat {
    ((n + d - 1) / d as int) as nat
}

/// `ceil(n / d)` for `d > 0`.
fn div_ceil(n: usize, d: usize) -> (r: usize)
    requires
        d > 0,
    ensures
        r as nat == ceil_div(n as nat, d as nat),
{
    let q = n / d;
    proof {
        vstd::arithmetic::div_mod::lemma_fundamental_div_mod(n as int, d as int);
        vstd::arithmetic::div_mod::lemma_mod_bound(n as int, d as int);
        let m = n % d;
        assert(n == q * d + m) by (nonlinear_arith)
            requires
                n == d * (n / d) + n % d,
                q == n / d,
                m == n % d,
        ;
        if m == 0 {
            assert(n + d - 1 == q * d + (d - 1));
            vstd::arithmetic::div_mod::lemma_fundamental_div_mod_converse(
                (n + d - 1) as int,
                d as int,
                q as int,
                (d - 1) as int,
            );
        } else {
            assert(n + d - 1 == (q + 1) * d + (m - 1)) by (nonlinear_arith)
                requires
                    n == q * d + m,
            ;
            assert(q < n) by (nonlinear_arith)
                requires
                    n == q * d + m,
                    m >= 1,
                    d >= 1,
            ;
            vstd::arithmetic::div_mod::lemma_fundamental_div_mod_converse(
                (n + d - 1) as int,
                d as int,
                (q + 1) as int,
                (m - 1) as int,
            );
        }
    }
    if n % d == 0 {
        q
    } else {
        q + 1
    }
}

/// Classifies an image's chunk layout from its tags: tiled when `tiled` (the tile offsets or
/// the tile width are present), with `tile_width` and `tile_length` required and non-zero;
/// otherwise strips of `rows_per_strip` rows, the whole image when the tag is absent.
pub fn chunk_grid(
    tiled: bool,
    tile_width: Option<u32>,
    tile_length: Option<u32>,
    rows_per_strip: Option<u32>,
    width: usize,
    height: usize,
) -> (r: Result<ChunkGrid>)
    ensures
        tiled ==> match (tile_width, tile_length) {
            (None, _) => r == Err::<ChunkGrid, Error>(Error::InvalidInput(MSG_NO_TILE_WIDTH)),
            (Some(_), None) => r == Err::<ChunkGrid, Error>(Error::InvalidInput(MSG_NO_TILE_LENGTH)),
            (Some(tw), Some(th)) => if tw == 0 || th == 0 {
                r == Err::<ChunkGrid, Error>(Error::InvalidInput(MSG_ZERO_TILE))
            } else {
                r matches Ok(ChunkGrid::Tiles { tile_width, tile_height, across, down })
                    && tile_width == tw && tile_height == th && across == ceil_div(
                    width as nat,
                    tw as nat,
                ) && down == ceil_div(height as nat, th as nat)
            },
        },
        !tiled ==> match rows_per_strip {
            Some(0) => r == Err::<ChunkGrid, Error>(Error::InvalidInput(MSG_ZERO_ROWS_PER_STRIP)),
            Some(n) => r == Ok::<ChunkGrid, Error>(ChunkGrid::Strips { rows_per_strip: n as usize }),
            None => r == Ok::<ChunkGrid, Error>(ChunkGrid::Strips { rows_per_strip: height }),
        },
{
    if tiled {
        let tw = match tile_width {
            Some(v) => v as usize,
            None => return Err(Error::InvalidInput(MSG_NO_TILE_WIDTH)),
        };
        let th = match tile_length {
            Some(v) => v as usize,
            None => return Err(Error::InvalidInput(MSG_NO_TILE_LENGTH)),
        };
        if tw == 0 || th == 0 {
            return Err(Error::InvalidInput(MSG_ZERO_TILE));
        }
        Ok(
            ChunkGrid::Tiles {
                tile_width: tw,
                tile_height: th,
                across: div_ceil(width, tw),
                down: div_ceil(height, th),
            },
        )
    } else {
        match rows_per_strip {
            Some(0) => Err(Error::InvalidInput(MSG_ZERO_ROWS_PER_STRIP)),
            Some(n) => Ok(ChunkGrid::Strips { rows_per_strip: n as usize }),
            None => Ok(ChunkGrid::Strips { rows_per_strip: height }),
        }
    }
}

/// A `RowInterleaveFactor` or `ColumnInterleaveFactor` checked against its axis length
/// `limit`: absent means 1, and zero or more than `limit` is refused.
pub fn interleave_factor(factor: Option<u32>, limit: usize) -> (r: Result<usize>)
    ensures
        match factor {
            None => r == Ok::<usize, Error>(1),
            Some(f) => if f == 0 || f > limit {
                r == Err::<usize, Error>(Error::InvalidInput(MSG_INTERLEAVE))
            } else {
                r == Ok::<usize, Error>(f as usize)
            },
        },
{
    match factor {
        None => Ok(1),
        Some(f) => {
            let f = f as usize;
            if f == 0 || f > limit {
                return Err(Error::InvalidInput(MSG_INTERLEAVE));
            }
            Ok(f)
        },
    }
}

/// Why a `SampleFormat` code is refused: floating point has its own message, every other code
/// but unsigned integer (1) the general one.
pub open spec fn format_refusal(code: u32) -> Option<&'static str> {
    if code == 1 {
        None
    } else if code == 3 {
        Some(MSG_FLOAT_SAMPLES)
    } else {
        Some(MSG_UNSIGNED_ONLY)
    }
}

/// The refusal of the first `SampleFormat` code from `i` on that is not unsigned integer.
pub open spec fn formats_refusal(formats: Seq<u32>, i: nat) -> Option<&'static str>
    decreases formats.len() - i,
{
    if i >= formats.len() {
        None
    } else if formats[i as int] != 1 {
        format_refusal(formats[i as int])
    } else {
        formats_refusal(formats, i + 1)
    }
}

/// Accepts `SampleFormat` values only when every plane is unsigned integer, the one encoding a
/// `u16` sample represents; the first other code decides the refusal.
pub fn check_sample_formats(formats: &[u32]) -> (r: Result<()>)
    ensures
        match r {
            Ok(_) => forall|i: int| 0 <= i < formats@.len() ==> #[trigger] formats@[i] == 1,
            Err(e) => exists|i: int|
                0 <= i < formats@.len() && (forall|j: int| 0 <= j < i ==> #[trigger] formats@[j]
                    == 1) && formats@[i] != 1 && e == Error::Unsupported(
                    format_refusal(formats@[i])->0,
                ),
        },
        r == match formats_refusal(formats@, 0) {
            None => Ok::<(), Error>(()),
            Some(m) => Err::<(), Error>(Error::Unsupported(m)),
        },
{
    let mut i: usize = 0;
    while i < formats.len()
        invariant
            i <= formats@.len(),
            forall|j: int| 0 <= j < i ==> #[trigger] formats@[j] == 1,
            formats_refusal(formats@, 0) == formats_refusal(formats@, i as nat),
        decreases formats@.len() - i,
    {
        let format = formats[i];
        let parsed = if format <= 65535 {
            SampleFormat::from_code(format as u16)
        } else {
            None
        };
        match parsed {
            Some(SampleFormat::UnsignedInteger) => {},
            Some(SampleFormat::FloatingPoint) => {
                proof {
                    assert(format_refusal(formats@[i as int]) == Some(MSG_FLOAT_SAMPLES));
                }
                return Err(Error::Unsupported(MSG_FLOAT_SAMPLES));
            },
            _ => {
                proof {
                    assert(SampleFormat::UnsignedInteger.spec_code() == 1);
                    assert(SampleFormat::FloatingPoint.spec_code() == 3);
                    assert(format != 1 && format != 3);
                    assert(format_refusal(formats@[i as int]) == Some(MSG_UNSIGNED_ONLY));
                }
                return Err(Error::Unsupported(MSG_UNSIGNED_ONLY));
            },
        }
        i = i + 1;
    }
    Ok(())
}

/// Strips assembled in order: the samples so far and the image rows not yet covered. Each strip
/// holds `rows_per_strip` rows, the last one what is left; a strip past the last row is refused.
pub struct StripAssembly {
    samples: Vec<u16>,
    remaining: usize,
}

impl StripAssembly {
    /// The samples assembled so far.
    pub closed spec fn spec_samples(&self) -> Seq<u16> {
        self.samples@
    }

    /// The rows not yet covered.
    pub closed spec fn spec_remaining(&self) -> nat {
        self.remaining as nat
    }

    /// Nothing assembled, all `height` rows to cover.
    pub fn new(height: usize) -> (r: Self)
        ensures
            r.spec_samples() == Seq::<u16>::empty(),
            r.spec_remaining() == height,
    {
        StripAssembly { samples: Vec::new(), remaining: height }
    }

    /// The rows the next strip holds: `rows_per_strip`, or what is left of the image; refused
    /// when nothing is left.
    pub fn next_rows(&self, rows_per_strip: usize) -> (r: Result<usize>)
        ensures
            if rows_per_strip == 0 || self.spec_remaining() == 0 {
                r == Err::<usize, Error>(Error::InvalidInput(MSG_EXTRA_STRIPS))
            } else {
                r matches Ok(n) && n == if rows_per_strip < self.spec_remaining() {
                    rows_per_strip as nat
                } else {
                    self.spec_remaining()
                }
            },
    {
        let rows = if rows_per_strip < self.remaining {
            rows_per_strip
        } else {
            self.remaining
        };
        if rows == 0 {
            return Err(Error::InvalidInput(MSG_EXTRA_STRIPS));
        }
        Ok(rows)
    }

    /// Appends a decoded strip of `rows` rows.
    pub fn push(&mut self, rows: usize, decoded: &[u16])
        requires
            rows <= old(self).spec_remaining(),
        ensures
            final(self).spec_samples() == old(self).spec_samples() + decoded@,
            final(self).spec_remaining() == old(self).spec_remaining() - rows,
    {
        let mut i: usize = 0;
        let ghost start = self.samples@;
        while i < decoded.len()
            invariant
                i <= decoded@.len(),
                self.samples@ == start + decoded@.take(i as int),
                self.remaining == old(self).remaining,
            decreases decoded@.len() - i,
        {
            self.samples.push(decoded[i]);
            i = i + 1;
            assert(self.samples@ =~= start + decoded@.take(i as int));
        }
        assert(decoded@.take(decoded@.len() as int) =~= decoded@);
        self.remaining = self.remaining - rows;
    }

    /// The assembled image, refused when it holds other than `expected` samples.
    pub fn finish(self, expected: usize) -> (r: Result<Vec<u16>>)
        ensures
            if self.spec_samples().len() == expected {
                r matches Ok(v) && v@ == self.spec_samples()
            } else {
                r == Err::<Vec<u16>, Error>(Error::InvalidInput(MSG_TRUNCATED_DATA))
            },
    {
        if self.samples.len() != expected {
            return Err(Error::InvalidInput(MSG_TRUNCATED_DATA));
        }
        Ok(self.samples)
    }
}

/// The number of tiles the grid holds, refused on overflow or when `chunks` tiles do not cover
/// it.
pub fn tile_count(across: usize, down: usize, chunks: usize) -> (r: Result<usize>)
    ensures
        if across * down > usize::MAX {
            r == Err::<usize, Error>(Error::InvalidInput(MSG_DIMS_OVERFLOW))
        } else if chunks != across * down {
            r == Err::<usize, Error>(Error::InvalidInput(MSG_TILE_COUNT))
        } else {
            r == Ok::<usize, Error>(chunks)
        },
{
    let count = match across.checked_mul(down) {
        Some(n) => n,
        None => return Err(Error::InvalidInput(MSG_DIMS_OVERFLOW)),
    };
    if chunks != count {
        return Err(Error::InvalidInput(MSG_TILE_COUNT));
    }
    Ok(count)
}

/// Sample `i` of the image the tiles cover: pixel `(x, y)` comes from tile `(x / tw, y / th)`,
/// at `(x % tw, y % th)` within it; the tiles' padding past the image edge is never read.
pub open spec fn tiled_sample(
    tiles: Seq<Vec<u16>>,
    width: nat,
    spp: nat,
    tw: nat,
    th: nat,
    across: nat,
    i: nat,
) -> u16 {
    let pixel = i / spp;
    let k = i % spp;
    let x = pixel % width;
    let y = pixel / width;
    tiles[((y / th) * across + x / tw) as int]@[(((y % th) * tw + x % tw) * spp + k) as int]
}

/// Where sample `i` of a tiled image sits stays inside the tile grid and inside its tile.
proof fn lemma_tile_index(
    width: nat,
    height: nat,
    spp: nat,
    tw: nat,
    th: nat,
    across: nat,
    down: nat,
    i: nat,
)
    requires
        i < width * height * spp,
        tw > 0,
        th > 0,
        across == ceil_div(width, tw),
        down == ceil_div(height, th),
    ensures
        ({
            let pixel = i / spp;
            let k = i % spp;
            let x = pixel % width;
            let y = pixel / width;
            &&& spp > 0 && width > 0
            &&& (y / th) * across <= (y / th) * across + x / tw
            &&& (y / th) * across + x / tw < across * down
            &&& ((y % th) * tw + x % tw) * spp + k < tw * th * spp
            &&& (y % th) * tw <= (y % th) * tw + x % tw
            &&& (y % th) * tw + x % tw <= ((y % th) * tw + x % tw) * spp
            &&& ((y % th) * tw + x % tw) * spp <= ((y % th) * tw + x % tw) * spp + k
        }),
{
    assert(spp > 0 && width > 0 && height > 0) by (nonlinear_arith)
        requires
            i < width * height * spp,
    ;
    let pixel = i / spp;
    let k = i % spp;
    vstd::arithmetic::div_mod::lemma_fundamental_div_mod(i as int, spp as int);
    vstd::arithmetic::div_mod::lemma_mod_bound(i as int, spp as int);
    assert(pixel < width * height) by (nonlinear_arith)
        requires
            i < width * height * spp,
            i == spp * pixel + k,
            0 <= k,
            spp > 0,
    ;
    let x = pixel % width;
    let y = pixel / width;
    vstd::arithmetic::div_mod::lemma_fundamental_div_mod(pixel as int, width as int);
    vstd::arithmetic::div_mod::lemma_mod_bound(pixel as int, width as int);
    assert(y < height) by (nonlinear_arith)
        requires
            pixel < width * height,
            pixel == width * y + x,
            0 <= x,
    ;
    let ty = y / th;
    let tx = x / tw;
    vstd::arithmetic::div_mod::lemma_fundamental_div_mod(y as int, th as int);
    vstd::arithmetic::div_mod::lemma_mod_bound(y as int, th as int);
    vstd::arithmetic::div_mod::lemma_fundamental_div_mod(x as int, tw as int);
    vstd::arithmetic::div_mod::lemma_mod_bound(x as int, tw as int);
    vstd::arithmetic::div_mod::lemma_fundamental_div_mod((height + th - 1) as int, th as int);
    vstd::arithmetic::div_mod::lemma_mod_bound((height + th - 1) as int, th as int);
    vstd::arithmetic::div_mod::lemma_fundamental_div_mod((width + tw - 1) as int, tw as int);
    vstd::arithmetic::div_mod::lemma_mod_bound((width + tw - 1) as int, tw as int);
    assert(ty < down) by (nonlinear_arith)
        requires
            y < height,
            y == th * ty + y % th,
            0 <= y % th,
            height + th - 1 == th * down + (height + th - 1) % (th as int),
            (height + th - 1) % (th as int) < th,
            th > 0,
    ;
    assert(tx < across) by (nonlinear_arith)
        requires
            x < width,
            x == tw * tx + x % tw,
            0 <= x % tw,
            width + tw - 1 == tw * across + (width + tw - 1) % (tw as int),
            (width + tw - 1) % (tw as int) < tw,
            tw > 0,
    ;
    assert(ty * across + tx < across * down) by (nonlinear_arith)
        requires
            ty < down,
            tx < across,
    ;
    let a = y % th;
    let b = x % tw;
    let cell = a * tw + b;
    assert(cell < tw * th) by (nonlinear_arith)
        requires
            a < th,
            b < tw,
            0 <= a,
            0 <= b,
            cell == a * tw + b,
    ;
    assert(cell * spp + k < tw * th * spp) by (nonlinear_arith)
        requires
            cell < tw * th,
            0 <= cell,
            k < spp,
    ;
    assert(0 <= ty * across && 0 <= (y % th) * tw && 0 <= ((y % th) * tw + x % tw) * spp)
        by (nonlinear_arith);
    assert(cell <= cell * spp) by (nonlinear_arith)
        requires
            spp >= 1,
            cell >= 0,
    ;
}

/// Puts full-size decoded tiles, `across` per tile row in row-major tile order, together into
/// the `width x height` image of `spp` samples per pixel, cropping the edge tiles' padding.
pub fn assemble_tiles(
    tiles: &[Vec<u16>],
    width: usize,
    height: usize,
    spp: usize,
    tile_width: usize,
    tile_height: usize,
    across: usize,
) -> (r: Vec<u16>)
    requires
        tile_width > 0,
        tile_height > 0,
        across == ceil_div(width as nat, tile_width as nat),
        tiles@.len() == across * ceil_div(height as nat, tile_height as nat),
        forall|j: int| 0 <= j < tiles@.len() ==> #[trigger] tiles@[j]@.len() == tile_width * tile_height
            * spp,
        width * height * spp <= usize::MAX,
    ensures
        r@.len() == width * height * spp,
        forall|i: int| 0 <= i < r@.len() ==> #[trigger] r@[i] == tiled_sample(
            tiles@,
            width as nat,
            spp as nat,
            tile_width as nat,
            tile_height as nat,
            across as nat,
            i as nat,
        ),
{
    let ghost down = ceil_div(height as nat, tile_height as nat);
    proof {
        assert(width * height <= width * height * spp || spp == 0) by (nonlinear_arith);
    }
    let total = if spp == 0 {
        0
    } else {
        width * height * spp
    };
    proof {
        assert(total == width * height * spp) by (nonlinear_arith)
            requires
                spp == 0 ==> total == 0,
                spp != 0 ==> total == width * height * spp,
        ;
    }
    let ntiles = tiles.len();
    let mut out: Vec<u16> = Vec::new();
    let mut i: usize = 0;
    while i < total
        invariant
            i <= total,
            ntiles == across * down,
            total == width * height * spp,
            tile_width > 0,
            tile_height > 0,
            across == ceil_div(width as nat, tile_width as nat),
            down == ceil_div(height as nat, tile_height as nat),
            tiles@.len() == across * down,
            forall|j: int| 0 <= j < tiles@.len() ==> #[trigger] tiles@[j]@.len() == tile_width
                * tile_height * spp,
            out@.len() == i,
            forall|j: int| 0 <= j < i ==> #[trigger] out@[j] == tiled_sample(
                tiles@,
                width as nat,
                spp as nat,
                tile_width as nat,
                tile_height as nat,
                across as nat,
                j as nat,
            ),
        decreases total - i,
    {
        proof {
            lemma_tile_index(
                width as nat,
                height as nat,
                spp as nat,
                tile_width as nat,
                tile_height as nat,
                across as nat,
                down,
                i as nat,
            );
        }
        let pixel = i / spp;
        let k = i % spp;
        let x = pixel % width;
        let y = pixel / width;
        let t = (y / tile_height) * across + x / tile_width;
        let tile = &tiles[t];
        let tile_len = tile.len();
        let at = ((y % tile_height) * tile_width + x % tile_width) * spp + k;
        let v = tile[at];
        out.push(v);
        i = i + 1;
    }
    out
}

/// The samples of an unpacked chunk cut to the `want` it must hold; padding past them is
/// tolerated, too few samples refused.
pub fn fit_chunk(got: Vec<u16>, want: usize) -> (r: Result<Vec<u16>>)
    ensures
        if got@.len() < want {
            r == Err::<Vec<u16>, Error>(Error::InvalidInput(MSG_TRUNCATED_DATA))
        } else {
            r matches Ok(v) && v@ == got@.take(want as int)
        },
{
    if got.len() < want {
        return Err(Error::InvalidInput(MSG_TRUNCATED_DATA));
    }
    let mut got = got;
    got.truncate(want);
    Ok(got)
}

/// Decodes a lossless-JPEG chunk that must hold `want` samples. Only the sample count has to
/// agree with the chunk: the stream's own width and component count are free.
pub fn lossless_chunk(chunk: &[u8], want: usize) -> (r: Result<Vec<u16>>)
    ensures
        r matches Ok(v) ==> v@.len() == want,
        match decoded(chunk@) {
            None => r matches Err(e) && e.spec_kind() == ErrorKind::InvalidInput,
            Some((w, h, c, s)) => if s.len() == want {
                r matches Ok(v) && v@ == s
            } else {
                r == Err::<Vec<u16>, Error>(Error::InvalidInput(MSG_JPEG_COUNT))
            },
        },
        forall|s: Seq<u16>, w: nat, h: nat, c: nat, p: nat| #[trigger]
            is_encoding(chunk@, s, w, h, c, p) ==> if w * h * c == want {
                r matches Ok(v) && v@ == s.take(want as int)
            } else {
                r == Err::<Vec<u16>, Error>(Error::InvalidInput(MSG_JPEG_COUNT))
            },
{
    let jpeg = match lossless_jpeg::decode(chunk) {
        Ok(j) => j,
        Err(e) => return Err(e),
    };
    if jpeg.samples.len() != want {
        return Err(Error::InvalidInput(MSG_JPEG_COUNT));
    }
    Ok(jpeg.samples)
}

/// The message for a `Compression` code that names no scheme.
pub const MSG_UNKNOWN_COMPRESSION: &'static str = "DNG: unknown compression";

/// The scheme a `Compression` code names.
pub open spec fn compression_of(code: u16) -> Option<Compression> {
    if code == 1 {
        Some(Compression::Uncompressed)
    } else if code == 7 {
        Some(Compression::LosslessJpeg)
    } else if code == 8 {
        Some(Compression::Deflate)
    } else if code == 34892 {
        Some(Compression::LossyJpeg)
    } else if code == 52546 {
        Some(Compression::JpegXl)
    } else {
        None
    }
}

/// Whether image data of this scheme can be decoded.
pub open spec fn decodable(c: Compression) -> bool {
    c == Compression::Uncompressed || c == Compression::Deflate || c == Compression::LosslessJpeg
        || c == Compression::JpegXl
}

/// The chunk layout [`chunk_grid`] gives for these tags.
pub open spec fn grid_of(
    tiled: bool,
    tile_width: Option<u32>,
    tile_length: Option<u32>,
    rows_per_strip: Option<u32>,
    width: nat,
    height: nat,
) -> std::result::Result<ChunkGrid, Error> {
    if tiled {
        match (tile_width, tile_length) {
            (None, _) => Err(Error::InvalidInput(MSG_NO_TILE_WIDTH)),
            (Some(_), None) => Err(Error::InvalidInput(MSG_NO_TILE_LENGTH)),
            (Some(tw), Some(th)) => if tw == 0 || th == 0 {
                Err(Error::InvalidInput(MSG_ZERO_TILE))
            } else {
                Ok(
                    ChunkGrid::Tiles {
                        tile_width: tw as usize,
                        tile_height: th as usize,
                        across: ceil_div(width, tw as nat) as usize,
                        down: ceil_div(height, th as nat) as usize,
                    },
                )
            },
        }
    } else {
        match rows_per_strip {
            Some(0) => Err(Error::InvalidInput(MSG_ZERO_ROWS_PER_STRIP)),
            Some(n) => Ok(ChunkGrid::Strips { rows_per_strip: n as usize }),
            None => Ok(ChunkGrid::Strips { rows_per_strip: height as usize }),
        }
    }
}

/// An interleave factor as [`interleave_factor`] checks it against the axis length `limit`.
pub open spec fn factor_of(factor: Option<u32>, limit: nat) -> std::result::Result<usize, Error> {
    match factor {
        None => Ok(1),
        Some(f) => if f == 0 || f > limit {
            Err(Error::InvalidInput(MSG_INTERLEAVE))
        } else {
            Ok(f as usize)
        },
    }
}

/// How an image's data is laid out, before any chunk is decoded: its compression scheme, the
/// sample count it must hold, its row and column interleave factors, and its chunk grid.
#[derive(Debug)]
pub struct ImageLayout {
    /// The compression scheme of every chunk.
    pub compression: Compression,
    /// `width * samples_per_pixel * height`.
    pub expected: usize,
    /// The `RowInterleaveFactor` (1 when absent).
    pub row_factor: usize,
    /// The `ColumnInterleaveFactor` (1 when absent).
    pub col_factor: usize,
    /// How the data is cut into strips or tiles.
    pub grid: ChunkGrid,
}

/// The layout the image-data tags give, or the first refusal, in the order they are checked:
/// the `Compression` code (1 when absent, kept to 16 bits) must name a scheme, and one that can
/// be decoded; every `SampleFormat` must be unsigned integer; `width * spp * height` must fit
/// `usize`; the interleave factors must lie within their axes; and the chunk grid must be
/// well formed.
pub open spec fn layout_of(
    compression: Option<u32>,
    formats: Option<Seq<u32>>,
    width: u32,
    height: u32,
    spp: usize,
    row_factor: Option<u32>,
    col_factor: Option<u32>,
    tiled: bool,
    tile_width: Option<u32>,
    tile_length: Option<u32>,
    rows_per_strip: Option<u32>,
) -> std::result::Result<ImageLayout, Error> {
    let code = (match compression {
        Some(c) => c,
        None => 1u32,
    }) as u16;
    match compression_of(code) {
        None => Err(Error::Unsupported(MSG_UNKNOWN_COMPRESSION)),
        Some(c) => if !decodable(c) {
            Err(Error::Unsupported(MSG_NOT_DECODABLE))
        } else {
            let refused = match formats {
                Some(f) => formats_refusal(f, 0),
                None => None,
            };
            match refused {
                Some(m) => Err(Error::Unsupported(m)),
                None => if width * spp > usize::MAX || width * spp * height > usize::MAX {
                    Err(Error::InvalidInput(MSG_DIMS_OVERFLOW))
                } else {
                    match (
                        factor_of(row_factor, height as nat),
                        factor_of(col_factor, width as nat),
                        grid_of(tiled, tile_width, tile_length, rows_per_strip, width as nat, height as nat),
                    ) {
                        (Err(e), _, _) => Err(e),
                        (Ok(_), Err(e), _) => Err(e),
                        (Ok(_), Ok(_), Err(e)) => Err(e),
                        (Ok(rf), Ok(cf), Ok(g)) => Ok(
                            ImageLayout {
                                compression: c,
                                expected: (width * spp * height) as usize,
                                row_factor: rf,
                                col_factor: cf,
                                grid: g,
                            },
                        ),
                    }
                },
            }
        },
    }
}

/// Lays out an image's data from its tags before any chunk is decoded (the checks that open
/// DNG image decoding): `compression` is the `Compression` tag, `formats` the `SampleFormat`
/// values, `row_factor` and `col_factor` the interleave factors, `tiled` whether the image is
/// tiled, and the rest the tile and strip tags. The result is [`layout_of`].
pub fn image_layout(
    compression: Option<u32>,
    formats: Option<Vec<u32>>,
    width: u32,
    height: u32,
    spp: usize,
    row_factor: Option<u32>,
    col_factor: Option<u32>,
    tiled: bool,
    tile_width: Option<u32>,
    tile_length: Option<u32>,
    rows_per_strip: Option<u32>,
) -> (r: Result<ImageLayout>)
    ensures
        r == layout_of(
            compression,
            match formats {
                Some(f) => Some(f@),
                None => None,
            },
            width,
            height,
            spp,
            row_factor,
            col_factor,
            tiled,
            tile_width,
            tile_length,
            rows_per_strip,
        ),
{
    let raw_code: u32 = match compression {
        Some(c) => c,
        None => 1,
    };
    let code: u16 = #[verifier::truncate] (raw_code as u16);
    let c = match Compression::from_code(code) {
        Some(c) => c,
        None => {
            proof {
                assert(Compression::Uncompressed.spec_code() != code);
                assert(Compression::LosslessJpeg.spec_code() != code);
                assert(Compression::Deflate.spec_code() != code);
                assert(Compression::LossyJpeg.spec_code() != code);
                assert(Compression::JpegXl.spec_code() != code);
            }
            return Err(Error::Unsupported(MSG_UNKNOWN_COMPRESSION));
        },
    };
    proof {
        assert(compression_of(code) == Some(c));
    }
    match c {
        Compression::Uncompressed | Compression::Deflate | Compression::LosslessJpeg
        | Compression::JpegXl => {},
        _ => return Err(Error::Unsupported(MSG_NOT_DECODABLE)),
    }
    match &formats {
        Some(f) => {
            check_sample_formats(f.as_slice())?;
        },
        None => {},
    }
    let w = width as usize;
    let h = height as usize;
    let expected = checked_product(w, spp, h)?;
    let rf = interleave_factor(row_factor, h)?;
    let cf = interleave_factor(col_factor, w)?;
    let grid = chunk_grid(tiled, tile_width, tile_length, rows_per_strip, w, h)?;
    Ok(ImageLayout { compression: c, expected, row_factor: rf, col_factor: cf, grid })
}

} // verus!
