//! The WBMP codec: a real binary format with a two-byte zero header, a
//! base-128 variable-length integer encoding for the dimensions, and one
//! bit per pixel packed eight to a byte, most significant bit first, in
//! row-major order with no padding between rows.

use vstd::prelude::*;

use crate::blob::{BlobReader, BlobWriter};
use crate::exception::{thrown, Exception, ExceptionInfo, ExceptionTag};
use crate::image::{
    bilevel_of, colormap_ramp, pixel_is_foreground, region_seq, region_write, BlobMode,
    BlobState, Colorspace, Image, ImageInfo, ImageType,
};
use crate::registry::{
    without, CoderEntry, CoderFlags, CoderId, FormatRegistry, FormatType, CODER_FLAGS_DEFAULT,
    CODER_FLAG_ADJOIN, IMAGE_CODER_SIGNATURE,
};
use crate::{PixelInfo, Quantum};
use crate::{ALPHA_CHANNEL, CHANNELS, INDEX_CHANNEL, OPAQUE_ALPHA, QUANTUM_RANGE};

verus! {

// ---------------------------------------------------------------------
// Variable-length integers.
//
// A value is a sequence of seven-bit groups, most significant group
// first; every group but the last has its top bit set.  Zero is the
// single byte 0x00.
// ---------------------------------------------------------------------

/// The continuation bytes (top bit set) that precede the final group when
/// the groups above the lowest one spell out `v`.
pub open spec fn varint_tail(v: nat) -> Seq<u8>
    decreases v,
{
    if v == 0 {
        Seq::empty()
    } else {
        varint_tail(v / 128) + seq![(v % 128 + 128) as u8]
    }
}

/// The bytes that encode `v`: the continuation bytes for `v / 128`
/// followed by the lowest group with its top bit clear.
pub open spec fn varint_encode(v: nat) -> Seq<u8> {
    varint_tail(v / 128) + seq![(v % 128) as u8]
}

/// What reading a variable-length integer from `s` at position `i` with
/// accumulator `acc` yields: the decoded value and the position after it,
/// or nothing when the stream ends before a byte with a clear top bit.
/// The accumulator shifts left seven bits per byte, exactly as the
/// machine-width cursor does, so oversized encodings wrap.
pub open spec fn varint_parse(s: Seq<u8>, i: int, acc: usize) -> Option<(usize, int)>
    decreases s.len() - i,
{
    if i < 0 || i >= s.len() {
        None
    } else {
        let b = s[i];
        let acc2 = (acc << 7usize) | ((b as usize) & 0x7f);
        if b < 128 {
            Some((acc2, i + 1))
        } else {
            varint_parse(s, i + 1, acc2)
        }
    }
}

/// Reads a variable-length integer: seven bits per byte accumulate into a
/// machine word until a byte with a clear top bit arrives.  Running out
/// of bytes first is a short read.
pub fn read_wbmp_integer(
    blob: &mut BlobReader,
    exception_info: &mut ExceptionInfo,
) -> (r: Result<usize, ()>)
    requires
        old(blob).wf(),
    ensures
        final(blob).wf(),
        final(blob).data == old(blob).data,
        match varint_parse(old(blob).data@, old(blob).pos as int, 0) {
            Some(res) => {
                &&& r matches Ok(v) && v == res.0
                &&& final(blob).pos == res.1
                &&& *final(exception_info) == *old(exception_info)
            },
            None => {
                &&& r is Err
                &&& final(blob).pos == old(blob).data@.len()
                &&& *final(exception_info) == thrown(
                    *old(exception_info),
                    Exception::CorruptImageError,
                    ExceptionTag::ShortRead,
                    "read_u8",
                )
            },
        },
{
    let mut value: usize = 0;
    loop
        invariant
            blob.wf(),
            blob.data == old(blob).data,
            blob.pos >= old(blob).pos,
            *exception_info == *old(exception_info),
            varint_parse(blob.data@, blob.pos as int, value)
                == varint_parse(old(blob).data@, old(blob).pos as int, 0),
        decreases blob.data@.len() - blob.pos,
    {
        let byte = blob.read_u8(exception_info)?;
        value = (value << 7) | ((byte as usize) & 0x7f);
        proof {
            assert(byte & 0x80 == 0 <==> byte < 128) by (bit_vector);
        }
        if byte & 0x80 == 0 {
            return Ok(value);
        }
    }
}

/// Writes the continuation bytes for the groups of `v` above the lowest
/// one, most significant first.
fn write_varint_tail(blob: &mut BlobWriter, v: usize)
    ensures
        final(blob).data@ == old(blob).data@ + varint_tail(v as nat),
    decreases v,
{
    if v > 0 {
        let low = (v & 0x7f) as u8;
        proof {
            assert(v >> 7 == v / 128 && v & 0x7f == v % 128) by (bit_vector);
            lemma_or_top_bit(low);
            assert(low | 0x80 == (v as nat % 128 + 128) as u8);
        }
        let ghost pre = blob.data@;
        write_varint_tail(blob, v >> 7);
        blob.write_u8(low | 0x80);
        proof {
            assert(blob.data@ =~= pre + varint_tail(v as nat));
        }
    } else {
        proof {
            assert(blob.data@ =~= blob.data@ + varint_tail(0));
        }
    }
}

/// Writes `v` as a variable-length integer: the minimal sequence of
/// seven-bit groups, most significant first, continuation bit on every
/// byte but the last.  Zero is written as the single byte 0x00.
pub fn write_wbmp_integer(blob: &mut BlobWriter, v: usize)
    ensures
        final(blob).data@ == old(blob).data@ + varint_encode(v as nat),
{
    proof {
        assert(v >> 7 == v / 128 && v & 0x7f == v % 128) by (bit_vector);
        assert((v & 0x7f) < 128) by (bit_vector);
    }
    let ghost pre = blob.data@;
    write_varint_tail(blob, v >> 7);
    blob.write_u8((v & 0x7f) as u8);
    proof {
        assert(blob.data@ =~= pre + varint_encode(v as nat));
    }
}

// ---------------------------------------------------------------------
// The variable-length integer round trip.
// ---------------------------------------------------------------------

/// 128 to the power `n`.
pub open spec fn pow128(n: nat) -> nat
    decreases n,
{
    if n == 0 {
        1
    } else {
        128 * pow128((n - 1) as nat)
    }
}

/// One accumulator step of the parser equals multiply-and-add while no
/// truncation occurs; `bound` is any machine word at least as large as
/// the combined value.
proof fn lemma_parse_step(acc: usize, b: u8, bound: usize)
    by (bit_vector)
    requires
        acc * 128 + ((b as usize) & 0x7f) <= bound,
    ensures
        (acc << 7usize) | ((b as usize) & 0x7f) == acc * 128 + ((b as usize) & 0x7f),
{
}

/// Setting the top bit of a seven-bit group adds 128 and is undone by
/// masking it off again.
proof fn lemma_or_top_bit(g: u8)
    by (bit_vector)
    requires
        g < 128,
    ensures
        g | 0x80 == g + 128,
        ((g | 0x80) as usize) & 0x7f == g as usize,
{
}

/// How a continuation byte built from `v % 128` reads back.
proof fn lemma_tail_byte(v: nat)
    ensures
        ((v % 128 + 128) as u8) >= 128,
        (((v % 128 + 128) as u8) as usize) & 0x7f == v % 128,
{
    let g = (v % 128) as u8;
    assert(g == v % 128);
    lemma_or_top_bit(g);
    assert((v % 128 + 128) as u8 == g | 0x80);
}

/// Parsing across the continuation bytes of `h` multiplies the
/// accumulator by the matching power of 128 and adds `h`, as long as the
/// combined value fits in a machine word.
proof fn lemma_varint_parse_tail(s: Seq<u8>, i: int, acc: usize, h: usize)
    requires
        0 <= i,
        i + varint_tail(h as nat).len() <= s.len(),
        forall|j: int|
            0 <= j < varint_tail(h as nat).len() ==> s[i + j] == varint_tail(h as nat)[j],
        acc * pow128(varint_tail(h as nat).len()) + h <= usize::MAX,
    ensures
        varint_parse(s, i, acc) == varint_parse(
            s,
            i + varint_tail(h as nat).len(),
            (acc * pow128(varint_tail(h as nat).len()) + h) as usize,
        ),
    decreases h,
{
    let t = varint_tail(h as nat);
    if h == 0 {
        assert(t.len() == 0);
        assert(pow128(0) == 1);
        assert(acc * 1 == acc);
    } else {
        let hi = h / 128;
        let thi = varint_tail(hi as nat);
        let n = thi.len();
        assert(t == thi + seq![(h as nat % 128 + 128) as u8]);
        assert(t.len() == n + 1);
        assert(forall|j: int| 0 <= j < n ==> s[i + j] == thi[j]) by {
            assert(forall|j: int| 0 <= j < n ==> t[j] == thi[j]);
        }
        assert(pow128(n + 1) == 128 * pow128(n));
        // The combined value after the upper groups still fits.
        assert(acc * pow128(n as nat) + hi <= usize::MAX) by (nonlinear_arith)
            requires
                acc * (128 * pow128(n as nat)) + h <= usize::MAX,
                hi == h / 128,
                h >= 1,
                pow128(n as nat) >= 0,
                acc >= 0,
        ;
        lemma_varint_parse_tail(s, i, acc, hi);
        let acc1 = (acc * pow128(n as nat) + hi) as usize;
        assert(acc1 == acc * pow128(n as nat) + hi);
        // The next byte is the lowest continuation group of `h`.
        let b = s[i + n];
        assert(b == t[n as int]);
        assert(b == (h as nat % 128 + 128) as u8);
        lemma_tail_byte(h as nat);
        assert(b >= 128);
        assert((b as usize) & 0x7f == h % 128);
        assert(acc1 * 128 + h % 128 == acc * pow128(n + 1) + h) by (nonlinear_arith)
            requires
                acc1 == acc * pow128(n as nat) + h / 128,
                pow128(n + 1) == 128 * pow128(n as nat),
                h >= 0,
        ;
        lemma_parse_step(acc1, b, usize::MAX);
        assert(varint_parse(s, i + n, acc1) == varint_parse(
            s,
            i + n + 1,
            (acc1 << 7usize) | ((b as usize) & 0x7f),
        ));
    }
}

/// The variable-length integer codec round-trips: reading back the bytes
/// that encode `v` yields `v` and consumes exactly those bytes, whatever
/// follows them in the stream.
pub proof fn lemma_varint_round_trip(s: Seq<u8>, i: int, v: usize)
    requires
        0 <= i,
        i + varint_encode(v as nat).len() <= s.len(),
        forall|j: int|
            0 <= j < varint_encode(v as nat).len() ==> s[i + j] == varint_encode(v as nat)[j],
    ensures
        varint_parse(s, i, 0) == Some((v, i + varint_encode(v as nat).len())),
{
    let hi = v / 128;
    let t = varint_tail(hi as nat);
    let n = t.len();
    assert(varint_encode(v as nat) == t + seq![(v as nat % 128) as u8]);
    assert(forall|j: int| 0 <= j < n ==> s[i + j] == t[j]) by {
        assert(forall|j: int| 0 <= j < n ==> varint_encode(v as nat)[j] == t[j]);
    }
    assert(0 * pow128(n) + hi <= usize::MAX) by (nonlinear_arith)
        requires
            hi <= usize::MAX,
    ;
    lemma_varint_parse_tail(s, i, 0, hi);
    let acc1 = (0 * pow128(n) + hi) as usize;
    assert(acc1 == hi);
    let b = s[i + n];
    assert(b == varint_encode(v as nat)[n as int]);
    assert(b == (v as nat % 128) as u8);
    assert(b == v % 128);
    assert(b < 128);
    assert(b < 128 ==> (b as usize) & 0x7f == b as usize) by (bit_vector);
    assert(acc1 * 128 + v % 128 <= usize::MAX && acc1 * 128 + v % 128 == v) by (nonlinear_arith)
        requires
            acc1 == v / 128,
            v >= 0,
            v <= usize::MAX,
    ;
    lemma_parse_step(acc1, b, usize::MAX);
}

/// Every byte in the continuation part has its top bit set.
proof fn lemma_varint_tail_bytes(v: nat)
    ensures
        forall|j: int| 0 <= j < varint_tail(v).len() ==> varint_tail(v)[j] >= 128,
    decreases v,
{
    if v != 0 {
        lemma_varint_tail_bytes(v / 128);
        lemma_tail_byte(v);
        let t = varint_tail(v / 128);
        assert(varint_tail(v) == t + seq![(v % 128 + 128) as u8]);
        assert forall|j: int| 0 <= j < varint_tail(v).len() implies varint_tail(v)[j]
            >= 128 by {
            if j < t.len() {
                assert(varint_tail(v)[j] == t[j]);
            } else {
                assert(varint_tail(v)[j] == (v % 128 + 128) as u8);
            }
        }
    }
}

/// The shape of an encoded variable-length integer: at least one byte,
/// the continuation bit set on every byte but the last, and clear on the
/// last.
pub proof fn lemma_varint_encode_form(v: nat)
    ensures
        varint_encode(v).len() >= 1,
        varint_encode(v)[varint_encode(v).len() - 1] < 128,
        forall|j: int|
            0 <= j < varint_encode(v).len() - 1 ==> varint_encode(v)[j] >= 128,
{
    lemma_varint_tail_bytes(v / 128);
    assert(forall|j: int|
        0 <= j < varint_tail(v / 128).len() ==> varint_encode(v)[j] == varint_tail(v / 128)[j]);
}

// ---------------------------------------------------------------------
// The wire format.
// ---------------------------------------------------------------------

/// How many bytes one packed row of `cols` pixels occupies.
pub open spec fn bytes_per_row(cols: nat) -> nat {
    (cols + 7) / 8
}

/// Bit `k` of a byte, counting from the most significant bit.
pub open spec fn byte_bit(b: u8, k: nat) -> bool
    recommends
        k < 8,
{
    (b >> ((7 - k) as u8)) & 1 == 1
}

/// The pixel bit at `(x, y)` of the packed pixel data that starts at
/// `start` in stream `s`, for an image `cols` pixels wide.
pub open spec fn wbmp_bit(s: Seq<u8>, start: int, cols: nat, x: nat, y: nat) -> bool {
    byte_bit(s[start + y * bytes_per_row(cols) + (x / 8) as int], x % 8)
}

/// The outcome of reading a WBMP header: each way it can be malformed,
/// or the dimensions it declares and where the pixel data starts.
pub enum WbmpHeader {
    /// The stream ends inside the two-byte type field.
    TruncatedHeader,
    /// The two-byte type field is not zero.
    WrongLevel,
    /// The stream ends inside a dimension integer.
    TruncatedDimensions,
    /// A declared dimension is zero.
    ZeroDimension,
    /// A well-formed header.
    Parsed { columns: usize, rows: usize, data_start: int },
}

/// Reads the WBMP header of stream `s`: the two-byte zero type field,
/// then width and height as variable-length integers, both nonzero.
pub open spec fn parse_wbmp_header(s: Seq<u8>) -> WbmpHeader {
    if s.len() < 2 {
        WbmpHeader::TruncatedHeader
    } else if !(s[0] == 0 && s[1] == 0) {
        WbmpHeader::WrongLevel
    } else {
        match varint_parse(s, 2, 0) {
            None => WbmpHeader::TruncatedDimensions,
            Some(c) => match varint_parse(s, c.1, 0) {
                None => WbmpHeader::TruncatedDimensions,
                Some(r) => if c.0 == 0 || r.0 == 0 {
                    WbmpHeader::ZeroDimension
                } else {
                    WbmpHeader::Parsed { columns: c.0, rows: r.0, data_start: r.1 }
                },
            },
        }
    }
}

/// The palette index a pixel bit selects.
pub open spec fn bit_quantum(bit: bool) -> Quantum {
    if bit {
        Quantum(1)
    } else {
        Quantum(0)
    }
}

/// The raster a WBMP decode produces: each pixel's palette index is its
/// stream bit, and its colour channels hold the palette's black or white
/// entry, fully opaque.
pub open spec fn wbmp_canvas(s: Seq<u8>, start: int, cols: nat, rows: nat) -> Seq<Quantum> {
    Seq::new(
        (cols * rows * CHANNELS) as nat,
        |i: int|
            {
                let p = i / (CHANNELS as int);
                let c = i % (CHANNELS as int);
                let bit = wbmp_bit(s, start, cols, (p % (cols as int)) as nat, (p / (cols as int)) as nat);
                if c == INDEX_CHANNEL as int {
                    bit_quantum(bit)
                } else if c == ALPHA_CHANNEL as int {
                    Quantum(OPAQUE_ALPHA)
                } else {
                    Quantum(
                        if bit {
                            QUANTUM_RANGE
                        } else {
                            0
                        },
                    )
                }
            },
    )
}

/// The raster as it stands after the pixel loop but before the palette
/// is committed: index channels carry the stream bits, colour and alpha
/// channels still carry the background fill.
pub open spec fn wbmp_indexed(
    s: Seq<u8>,
    start: int,
    cols: nat,
    rows: nat,
    bg: PixelInfo,
) -> Seq<Quantum> {
    Seq::new(
        (cols * rows * CHANNELS) as nat,
        |i: int|
            {
                let p = i / (CHANNELS as int);
                let c = i % (CHANNELS as int);
                if c == INDEX_CHANNEL as int {
                    bit_quantum(
                        wbmp_bit(s, start, cols, (p % (cols as int)) as nat, (p / (cols as int)) as nat),
                    )
                } else {
                    Quantum(bg.channel(c as nat))
                }
            },
    )
}

/// The raster after the canvas is resized and filled with the background
/// colour, before any pixel bits arrive: index channels are zero, colour
/// and alpha channels carry the background.
pub open spec fn wbmp_base(cols: nat, rows: nat, bg: PixelInfo) -> Seq<Quantum> {
    Seq::new(
        (cols * rows * CHANNELS) as nat,
        |i: int|
            {
                let c = i % (CHANNELS as int);
                if c == INDEX_CHANNEL as int {
                    Quantum(0)
                } else {
                    Quantum(bg.channel(c as nat))
                }
            },
    )
}

/// A bit-test mask selects exactly the bit the specification reads.
proof fn lemma_bit_test(b: u8, j: u8)
    by (bit_vector)
    requires
        j < 8,
    ensures
        (b & (1u8 << j) == 0) <==> ((b >> j) & 1 == 0),
        (b >> j) & 1 == 0 || (b >> j) & 1 == 1,
{
}

/// Whether a WBMP decode of this request succeeds: the header must be
/// well formed with nonzero dimensions, and unless the call is a probe,
/// the canvas must fit in a machine word and the stream must carry every
/// row's bytes.
pub open spec fn wbmp_decode_ok(info: ImageInfo) -> bool {
    match parse_wbmp_header(info.blob@) {
        WbmpHeader::Parsed { columns, rows, data_start } => info.ping || (columns * rows
            * CHANNELS <= usize::MAX && info.blob@.len() >= data_start + rows * bytes_per_row(
            columns as nat,
        )),
        _ => false,
    }
}

/// The image a successful WBMP decode hands back: for a probe, a fresh
/// image with no pixels; otherwise the decoded canvas with its two-entry
/// palette and one progress report per row.
pub open spec fn wbmp_decoded(info: ImageInfo, img: Image) -> bool {
    match parse_wbmp_header(info.blob@) {
        WbmpHeader::Parsed { columns, rows, data_start } => if info.ping {
            info.is_fresh_image(img)
        } else {
            &&& img.columns == columns
            &&& img.rows == rows
            &&& img.background_color == info.background_color
            &&& img.ping == info.ping
            &&& img.pixels@ == wbmp_canvas(info.blob@, data_start, columns as nat, rows as nat)
            &&& img.colormap@ == colormap_ramp(2)
            &&& img.blob@ == Seq::<u8>::empty()
            &&& img.blob_state == BlobState::Closed
            &&& img.progress@ == Seq::new(rows as nat, |k: int| (k as usize, rows))
        },
        _ => false,
    }
}

/// Decodes a WBMP stream: checks the two-byte zero header, reads nonzero
/// width and height as variable-length integers, and unless the call is
/// a metadata-only probe, fills a two-entry palette canvas with one
/// stream bit per pixel, most significant bit first, eight per byte,
/// row-major.  Each malformed input fails with its own exception record
/// and no canvas is handed out.
pub fn read_wbmp_image(
    image_info: &ImageInfo,
    exception_info: &mut ExceptionInfo,
) -> (r: Result<Image, ()>)
    requires
        old(exception_info).is_clear(),
    ensures
        ({
            let s = image_info.blob@;
            match parse_wbmp_header(s) {
                WbmpHeader::TruncatedHeader | WbmpHeader::TruncatedDimensions => r is Err
                    && *final(exception_info) == thrown(
                    *old(exception_info),
                    Exception::CorruptImageError,
                    ExceptionTag::ShortRead,
                    "read_u8",
                ),
                WbmpHeader::WrongLevel => r is Err && *final(exception_info) == thrown(
                    *old(exception_info),
                    Exception::CoderError,
                    ExceptionTag::OnlyLevelZerofilesSupported,
                    "read_wbmp_image",
                ),
                WbmpHeader::ZeroDimension => r is Err && *final(exception_info) == thrown(
                    *old(exception_info),
                    Exception::CorruptImageError,
                    ExceptionTag::ImproperImageHeader,
                    "read_wbmp_image",
                ),
                WbmpHeader::Parsed { columns, rows, data_start } => {
                    if image_info.ping {
                        r matches Ok(img) && wbmp_decoded(*image_info, img)
                            && final(exception_info).is_clear()
                    } else if columns * rows * CHANNELS > usize::MAX {
                        r is Err && *final(exception_info) == thrown(
                            *old(exception_info),
                            Exception::ResourceLimitError,
                            ExceptionTag::MemoryAllocationFailed,
                            "set_extent",
                        )
                    } else if s.len() < data_start + rows * bytes_per_row(columns as nat) {
                        r is Err && *final(exception_info) == thrown(
                            *old(exception_info),
                            Exception::CorruptImageError,
                            ExceptionTag::ShortRead,
                            "read_u8",
                        )
                    } else {
                        r matches Ok(img) && final(exception_info).is_clear() && wbmp_decoded(
                            *image_info,
                            img,
                        )
                    }
                },
            }
        }),
        r is Err ==> !final(exception_info).is_clear(),
{
    let ghost s = image_info.blob@;
    let mut image = image_info.acquire_image(exception_info)?;
    let mut blob = image.open_blob_read(image_info, BlobMode::Binary, exception_info)?;

    let header = match blob.read_u16_be(exception_info) {
        Ok(h) => h,
        Err(_) => {
            image.close_blob_read(blob);
            return Err(());
        },
    };
    if header != 0 {
        proof {
            assert(s[0] * 256 + s[1] != 0 ==> !(s[0] == 0 && s[1] == 0));
        }
        let _ = exception_info.throw(
            Exception::CoderError,
            ExceptionTag::OnlyLevelZerofilesSupported,
            "read_wbmp_image",
        );
        image.close_blob_read(blob);
        return Err(());
    }
    proof {
        assert(s[0] == 0 && s[1] == 0) by {
            assert(s[0] * 256 + s[1] == 0);
        }
    }

    let columns = match read_wbmp_integer(&mut blob, exception_info) {
        Ok(v) => v,
        Err(_) => {
            image.close_blob_read(blob);
            return Err(());
        },
    };
    let rows = match read_wbmp_integer(&mut blob, exception_info) {
        Ok(v) => v,
        Err(_) => {
            image.close_blob_read(blob);
            return Err(());
        },
    };
    if rows == 0 || columns == 0 {
        let _ = exception_info.throw(
            Exception::CorruptImageError,
            ExceptionTag::ImproperImageHeader,
            "read_wbmp_image",
        );
        image.close_blob_read(blob);
        return Err(());
    }
    let ghost data_start = blob.pos as int;

    if image.is_ping() {
        image.close_blob_read(blob);
        return Ok(image);
    }

    match image.set_extent(columns, rows, exception_info) {
        Ok(_) => {},
        Err(_) => {
            image.close_blob_read(blob);
            return Err(());
        },
    }
    let r1 = image.set_pixels_to_background_color(exception_info);
    if r1.is_err() {
        image.close_blob_read(blob);
        return Err(());
    }
    let r2 = image.acquire_colormap(2, exception_info);
    if r2.is_err() {
        image.close_blob_read(blob);
        return Err(());
    }
    proof {
        lemma_wbmp_base(image.pixels@, columns as nat, rows as nat, image_info.background_color);
    }

    let ghost img0 = image;
    let ghost base = wbmp_base(columns as nat, rows as nat, image_info.background_color);
    let ghost indexed = wbmp_indexed(
        s,
        data_start,
        columns as nat,
        rows as nat,
        image_info.background_color,
    );
    let ghost bpr = bytes_per_row(columns as nat);
    let mut y: usize = 0;
    while y < rows
        invariant
            y <= rows,
            1 <= columns,
            1 <= rows,
            *exception_info == *old(exception_info),
            exception_info.is_clear(),
            s == image_info.blob@,
            parse_wbmp_header(s) == (WbmpHeader::Parsed { columns, rows, data_start }),
            !image_info.ping,
            columns * rows * CHANNELS <= usize::MAX,
            image == (Image { pixels: image.pixels, progress: image.progress, ..img0 }),
            img0.columns == columns,
            img0.rows == rows,
            img0.blob_state == BlobState::OpenForRead,
            image.extent_set(),
            image.pixels@.len() == columns * rows * CHANNELS,
            blob.wf(),
            blob.data@ == s,
            blob.pos == data_start + y * bpr,
            data_start >= 0,
            bpr == bytes_per_row(columns as nat),
            base == wbmp_base(columns as nat, rows as nat, image_info.background_color),
            indexed == wbmp_indexed(
                s,
                data_start,
                columns as nat,
                rows as nat,
                image_info.background_color,
            ),
            base.len() == image.pixels@.len(),
            indexed.len() == image.pixels@.len(),
            image.progress@ == img0.progress@ + Seq::new(y as nat, |k: int| (k as usize, rows)),
            forall|i: int|
                0 <= i < image.pixels@.len() && crate::image::row_of(i, columns as nat) < y
                    ==> image.pixels@[i] == indexed[i],
            forall|i: int|
                0 <= i < image.pixels@.len() && crate::image::row_of(i, columns as nat) >= y
                    ==> image.pixels@[i] == base[i],
        decreases rows - y,
    {
        let mut q = image.queue_authentic_pixels(0, y, columns, 1, exception_info)?;
        let ghost q0 = q.quantums@;
        let ghost pix0 = image.pixels@;
        let mut bits_remaining: usize = 0;
        let mut byte: u8 = 0;
        let mut x: usize = 0;
        while x < columns
            invariant
                x <= columns,
                1 <= columns,
                1 <= rows,
                y < rows,
                *exception_info == *old(exception_info),
                exception_info.is_clear(),
                s == image_info.blob@,
                parse_wbmp_header(s) == (WbmpHeader::Parsed { columns, rows, data_start }),
                !image_info.ping,
                columns * rows * CHANNELS <= usize::MAX,
                image == (Image { pixels: image.pixels, progress: image.progress, ..img0 }),
                img0.columns == columns,
                img0.rows == rows,
                img0.blob_state == BlobState::OpenForRead,
                image.extent_set(),
                image.pixels@.len() == columns * rows * CHANNELS,
                blob.wf(),
                blob.data@ == s,
                data_start >= 0,
                bpr == bytes_per_row(columns as nat),
                blob.pos == data_start + y * bpr + (x + 7) / 8,
                bits_remaining == (if x % 8 == 0 { 0int } else { 8 - (x % 8) }),
                bits_remaining > 0 ==> byte == s[data_start + y * bpr + (x / 8) as int],
                q.wf(),
                q.columns == columns,
                q.rows == 1,
                q.x == 0,
                q.y == y,
                q.quantums@.len() == q0.len(),
                q0.len() == columns * 1 * CHANNELS,
                image.pixels@ == pix0,
                q0 == region_seq(image.pixels@, columns as nat, 0, y as nat, columns as nat, 1),
                image.progress@ == img0.progress@ + Seq::new(
                    y as nat,
                    |k: int| (k as usize, rows),
                ),
                forall|k: int| x * CHANNELS <= k < q0.len() ==> q.quantums@[k] == q0[k],
                forall|px: int, c: int|
                    0 <= px < x && 0 <= c < CHANNELS && c != INDEX_CHANNEL
                        ==> #[trigger] q.quantums@[px * CHANNELS + c] == q0[px * CHANNELS + c],
                forall|px: int|
                    0 <= px < x ==> #[trigger] q.quantums@[px * CHANNELS + INDEX_CHANNEL as int]
                        == bit_quantum(
                        wbmp_bit(s, data_start, columns as nat, px as nat, y as nat),
                    ),
            decreases columns - x,
        {
            if bits_remaining == 0 {
                proof {
                    lemma_row_byte_bound(columns as nat, rows as nat, x as nat, y as nat);
                    assert((x + 7) / 8 == x / 8) by {
                        vstd::arithmetic::div_mod::lemma_fundamental_div_mod(x as int, 8);
                        vstd::arithmetic::div_mod::lemma_fundamental_div_mod_converse(
                            x as int + 7,
                            8,
                            x as int / 8,
                            7,
                        );
                    }
                    assert(data_start + y * bpr + x / 8 < data_start + rows * bpr) by (nonlinear_arith)
                        requires
                            y * bpr + x / 8 < rows * bpr,
                    ;
                }
                byte = match blob.read_u8(exception_info) {
                    Ok(b) => b,
                    Err(_) => {
                        proof {
                            assert(s.len() < data_start + rows * bpr);
                        }
                        image.close_blob_read(blob);
                        return Err(());
                    },
                };
                bits_remaining = 8;
            }
            let mask = 1u8 << ((bits_remaining - 1) as u8);
            let pixel_val: u16 = if byte & mask == 0 {
                0
            } else {
                1
            };
            proof {
                lemma_bit_test(byte, (bits_remaining - 1) as u8);
                assert(bits_remaining == 8 - (x % 8));
                assert((bits_remaining - 1) as u8 == (7 - (x % 8)) as u8);
                assert(byte == s[data_start + y * bpr + (x / 8) as int]);
                assert(wbmp_bit(s, data_start, columns as nat, x as nat, y as nat) == (
                    byte_bit(byte, (x % 8) as nat)));
                assert(byte_bit(byte, (x % 8) as nat) == ((byte >> ((bits_remaining - 1) as u8))
                    & 1 == 1));
                assert(x < columns * 1) by (nonlinear_arith)
                    requires
                        x < columns,
                ;
                assert(x * CHANNELS + CHANNELS == (x + 1) * CHANNELS
                    && (x + 1) * CHANNELS <= columns * 1 * CHANNELS) by (nonlinear_arith)
                    requires
                        x < columns,
                        CHANNELS == 5,
                ;
                assert(Quantum(pixel_val) == bit_quantum(
                    wbmp_bit(s, data_start, columns as nat, x as nat, y as nat),
                ));
            }
            q.set_pixel_index(x, Quantum(pixel_val));
            proof {
                assert((x + 8) / 8 == (x + 7) / 8 + (if x % 8 == 0 { 1int } else { 0 })
                    && (x + 1) % 8 == (if x % 8 == 7 { 0int } else { x % 8 + 1 })
                    && (x + 1) / 8 == (if x % 8 == 7 { x / 8 + 1 } else { (x / 8) as int })) by {
                    vstd::arithmetic::div_mod::lemma_fundamental_div_mod(x as int, 8);
                    vstd::arithmetic::div_mod::lemma_fundamental_div_mod_converse(
                        x + 8,
                        8,
                        x as int / 8 + 1,
                        x as int % 8,
                    );
                    if x % 8 == 7 {
                        vstd::arithmetic::div_mod::lemma_fundamental_div_mod_converse(
                            x + 1,
                            8,
                            x as int / 8 + 1,
                            0,
                        );
                        vstd::arithmetic::div_mod::lemma_fundamental_div_mod_converse(
                            x + 7,
                            8,
                            x as int / 8 + 1,
                            6,
                        );
                    } else {
                        vstd::arithmetic::div_mod::lemma_fundamental_div_mod_converse(
                            x + 1,
                            8,
                            x as int / 8,
                            x as int % 8 + 1,
                        );
                        if x % 8 == 0 {
                            vstd::arithmetic::div_mod::lemma_fundamental_div_mod_converse(
                                x + 7,
                                8,
                                x as int / 8,
                                7,
                            );
                        } else {
                            vstd::arithmetic::div_mod::lemma_fundamental_div_mod_converse(
                                x + 7,
                                8,
                                x as int / 8 + 1,
                                x as int % 8 - 1,
                            );
                        }
                    }
                }
            }
            bits_remaining = bits_remaining - 1;
            x = x + 1;
        }
        proof {
            assert(blob.pos == data_start + (y + 1) * bpr) by {
                assert((columns as int + 7) / 8 == bpr);
                assert(y * bpr + bpr == (y + 1) * bpr) by (nonlinear_arith);
            }
        }
        let ghost before_sync = image.pixels@;
        let ghost qf = q.quantums@;
        image.sync_authentic_pixels(q, exception_info)?;
        image.set_progress(y, rows);
        proof {
            lemma_wbmp_row_commit(
                before_sync,
                image.pixels@,
                q0,
                qf,
                s,
                data_start,
                columns as nat,
                rows as nat,
                y as nat,
                image_info.background_color,
            );
            assert(image.progress@ =~= img0.progress@ + Seq::new(
                (y + 1) as nat,
                |k: int| (k as usize, rows),
            ));
        }
        y = y + 1;
    }
    proof {
        assert forall|i: int| 0 <= i < indexed.len() implies image.pixels@[i] == indexed[i] by {
            let d = ((columns * CHANNELS) as int);
            assert(columns > 0 && d > 0 && indexed.len() == rows * d) by (nonlinear_arith)
                requires
                    indexed.len() == columns * rows * CHANNELS,
                    columns >= 1,
                    d == ((columns * CHANNELS) as int),
                    CHANNELS == 5,
            ;
            assert(crate::image::row_of(i, columns as nat) < rows) by (nonlinear_arith)
                requires
                    d > 0,
                    0 <= i < rows * d,
                    crate::image::row_of(i, columns as nat) == i / d,
            ;
        }
        assert(image.pixels@ =~= indexed);
    }
    let r3 = image.sync(exception_info);
    if r3.is_err() {
        image.close_blob_read(blob);
        return Err(());
    }
    image.close_blob_read(blob);
    proof {
        lemma_wbmp_synced(
            indexed,
            image.pixels@,
            s,
            data_start,
            columns as nat,
            rows as nat,
            image_info.background_color,
        );
        assert(image.pixels@ =~= wbmp_canvas(s, data_start, columns as nat, rows as nat));
        assert(image.progress@ =~= Seq::new(rows as nat, |k: int| (k as usize, rows)));
    }
    Ok(image)
}

/// While a row still has pixels to fill, the byte that supplies the next
/// bit lies inside that row's packed bytes.
proof fn lemma_row_byte_bound(cols: nat, rows: nat, x: nat, y: nat)
    requires
        x < cols,
        y < rows,
    ensures
        y * bytes_per_row(cols) + x / 8 < rows * bytes_per_row(cols),
{
    let bpr = bytes_per_row(cols);
    assert(x / 8 < bpr) by {
        assert(x / 8 <= (cols - 1) / 8) by {
            vstd::arithmetic::div_mod::lemma_div_is_ordered(x as int, cols - 1, 8);
        }
        assert((cols - 1) / 8 < (cols + 7) / 8) by {
            vstd::arithmetic::div_mod::lemma_fundamental_div_mod(cols - 1, 8);
            vstd::arithmetic::div_mod::lemma_fundamental_div_mod_converse(
                cols as int + 7,
                8,
                (cols - 1) / 8 + 1,
                (cols - 1) % 8,
            );
        }
    }
    assert(y * bpr + bpr <= rows * bpr) by (nonlinear_arith)
        requires
            y < rows,
    ;
}

/// After the canvas is resized and background-filled, the buffer matches
/// the pre-bit raster description.
proof fn lemma_wbmp_base(pixels: Seq<Quantum>, cols: nat, rows: nat, bg: PixelInfo)
    requires
        pixels == crate::image::background_filled(
            Seq::new((cols * rows * CHANNELS) as nat, |i: int| Quantum(0)),
            bg,
        ),
    ensures
        pixels == wbmp_base(cols, rows, bg),
{
    assert(pixels =~= wbmp_base(cols, rows, bg));
}

/// One committed row extends the indexed prefix of the canvas by one.
proof fn lemma_wbmp_row_commit(
    before: Seq<Quantum>,
    after: Seq<Quantum>,
    q0: Seq<Quantum>,
    qf: Seq<Quantum>,
    s: Seq<u8>,
    start: int,
    cols: nat,
    rows: nat,
    y: nat,
    bg: PixelInfo,
)
    requires
        cols >= 1,
        y < rows,
        before.len() == cols * rows * CHANNELS,
        q0 == region_seq(before, cols, 0, y, cols, 1),
        qf.len() == cols * 1 * CHANNELS,
        forall|px: int, c: int|
            0 <= px < cols && 0 <= c < CHANNELS && c != INDEX_CHANNEL ==> #[trigger] qf[px
                * CHANNELS + c] == q0[px * CHANNELS + c],
        forall|px: int|
            0 <= px < cols ==> #[trigger] qf[px * CHANNELS + INDEX_CHANNEL as int] == bit_quantum(
                wbmp_bit(s, start, cols, px as nat, y),
            ),
        forall|i: int|
            0 <= i < before.len() && crate::image::row_of(i, cols) < y ==> before[i]
                == wbmp_indexed(s, start, cols, rows, bg)[i],
        forall|i: int|
            0 <= i < before.len() && crate::image::row_of(i, cols) >= y ==> before[i]
                == wbmp_base(cols, rows, bg)[i],
        after == region_write(before, cols, 0, y, cols, 1, qf),
    ensures
        after.len() == before.len(),
        forall|i: int|
            0 <= i < after.len() && crate::image::row_of(i, cols) < y + 1 ==> after[i]
                == wbmp_indexed(s, start, cols, rows, bg)[i],
        forall|i: int|
            0 <= i < after.len() && crate::image::row_of(i, cols) >= y + 1 ==> after[i]
                == wbmp_base(cols, rows, bg)[i],
{
    let d = (cols * CHANNELS) as int;
    let indexed = wbmp_indexed(s, start, cols, rows, bg);
    let base = wbmp_base(cols, rows, bg);
    assert(d >= CHANNELS && (0 + cols) * CHANNELS == d && cols * 1 * CHANNELS == d)
        by (nonlinear_arith)
        requires
            cols >= 1,
            d == (cols * CHANNELS) as int,
            CHANNELS == 5,
    ;
    assert forall|i: int| 0 <= i < after.len() implies (after[i] == if crate::image::row_of(
        i,
        cols,
    ) <= y {
        indexed[i]
    } else {
        base[i]
    }) by {
        let row = i / d;
        let off = i % d;
        vstd::arithmetic::div_mod::lemma_fundamental_div_mod(i, d);
        if row == y {
            assert(after[i] == qf[off]);
            let px = off / (CHANNELS as int);
            let c = off % (CHANNELS as int);
            vstd::arithmetic::div_mod::lemma_fundamental_div_mod(off, CHANNELS as int);
            assert(px < cols) by (nonlinear_arith)
                requires
                    off < d,
                    d == (cols * CHANNELS) as int,
                    px == off / (CHANNELS as int),
                    0 <= off,
                    CHANNELS == 5,
            ;
            assert(off == px * CHANNELS + c && 0 <= c < CHANNELS);
            // Pixel number and channel offset agree between the view and
            // the whole buffer.
            assert(i == CHANNELS * (row * cols + px) + c && i == d * row + (px * CHANNELS + c))
                by (nonlinear_arith)
                requires
                    i == d * row + off,
                    off == px * CHANNELS + c,
                    d == (cols * CHANNELS) as int,
            ;
            vstd::arithmetic::div_mod::lemma_fundamental_div_mod_converse(
                i,
                CHANNELS as int,
                row * (cols as int) + px,
                c,
            );
            assert(i / (CHANNELS as int) == row * (cols as int) + px);
            assert(i % (CHANNELS as int) == c);
            vstd::arithmetic::div_mod::lemma_fundamental_div_mod_converse(
                row * (cols as int) + px,
                cols as int,
                row,
                px,
            );
            assert((i / (CHANNELS as int)) % (cols as int) == px);
            assert((i / (CHANNELS as int)) / (cols as int) == row);
            if c == INDEX_CHANNEL as int {
                assert(qf[off] == bit_quantum(wbmp_bit(s, start, cols, px as nat, y)));
                assert(after[i] == indexed[i]);
            } else {
                // The colour channel came back from the snapshot, which
                // still held the background fill.
                assert(qf[off] == q0[off]);
                assert(q0[off] == before[((y + off / d) * cols + 0) * CHANNELS + off % d]);
                assert(off / d == 0 && off % d == off) by (nonlinear_arith)
                    requires
                        0 <= off < d,
                        d > 0,
                ;
                assert((y * cols + 0) * CHANNELS + off == d * y + off) by (nonlinear_arith)
                    requires
                        d == (cols * CHANNELS) as int,
                ;
                vstd::arithmetic::div_mod::lemma_fundamental_div_mod_converse(
                    d * (y as int) + off,
                    d,
                    y as int,
                    off,
                );
                assert(before[(y * cols + 0) * CHANNELS + off] == base[d * (y as int) + off]);
                vstd::arithmetic::div_mod::lemma_mod_multiples_vanish(
                    (y * cols) as int,
                    off,
                    CHANNELS as int,
                );
                assert((d * (y as int) + off) % (CHANNELS as int) == c) by (nonlinear_arith)
                    requires
                        d == (cols * CHANNELS) as int,
                        (CHANNELS as int * ((y * cols) as int) + off) % (CHANNELS as int) == off
                            % (CHANNELS as int),
                        off % (CHANNELS as int) == c,
                ;
                assert(base[d * (y as int) + off] == Quantum(bg.channel(c as nat)));
                assert(indexed[i] == Quantum(bg.channel(c as nat)));
                assert(after[i] == indexed[i]);
            }
        } else {
            assert(after[i] == before[i]);
        }
    }
}

/// Committing the two-entry palette turns the indexed raster into the
/// final canvas.
proof fn lemma_wbmp_synced(
    indexed: Seq<Quantum>,
    synced: Seq<Quantum>,
    s: Seq<u8>,
    start: int,
    cols: nat,
    rows: nat,
    bg: PixelInfo,
)
    requires
        cols >= 1,
        indexed == wbmp_indexed(s, start, cols, rows, bg),
        synced == crate::image::colormap_synced(indexed, colormap_ramp(2)),
    ensures
        synced.len() == cols * rows * CHANNELS,
        forall|i: int|
            0 <= i < synced.len() ==> synced[i] == wbmp_canvas(s, start, cols, rows)[i],
{
    let cmap = colormap_ramp(2);
    assert(cmap.len() == 2);
    assert forall|i: int| 0 <= i < synced.len() implies synced[i] == wbmp_canvas(
        s,
        start,
        cols,
        rows,
    )[i] by {
        let p = i / (CHANNELS as int);
        let c = i % (CHANNELS as int);
        vstd::arithmetic::div_mod::lemma_fundamental_div_mod(i, CHANNELS as int);
        assert(0 <= c < CHANNELS);
        let k = p * (CHANNELS as int) + INDEX_CHANNEL as int;
        vstd::arithmetic::div_mod::lemma_fundamental_div_mod_converse(
            k,
            CHANNELS as int,
            p,
            INDEX_CHANNEL as int,
        );
        assert(0 <= k < indexed.len()) by (nonlinear_arith)
            requires
                k == p * (CHANNELS as int) + INDEX_CHANNEL as int,
                0 <= i < indexed.len(),
                i == (CHANNELS as int) * p + c,
                0 <= c < CHANNELS,
                indexed.len() as int % (CHANNELS as int) == 0,
                CHANNELS == 5,
        ;
        if c != INDEX_CHANNEL as int {
            let bit = wbmp_bit(
                s,
                start,
                cols,
                (p % (cols as int)) as nat,
                (p / (cols as int)) as nat,
            );
            assert(indexed[k] == bit_quantum(bit));
            let idx = indexed[k].0 as int;
            assert(idx == if bit { 1int } else { 0int });
            assert(cmap[idx].channel(c as nat) == (if c == ALPHA_CHANNEL as int {
                OPAQUE_ALPHA
            } else if bit {
                QUANTUM_RANGE
            } else {
                0u16
            }));
        }
    }
}

// ---------------------------------------------------------------------
// Encoding.
// ---------------------------------------------------------------------

/// Whether position `i` of a bit row is set; positions outside the row
/// read as clear, which is also how a final partial byte is padded.
pub open spec fn bit_at(bits: Seq<bool>, i: int) -> bool {
    0 <= i < bits.len() && bits[i]
}

/// The value bit `j` of a byte contributes, counting from the most
/// significant bit.
pub open spec fn bit_weight(j: int) -> u8 {
    if j == 0 {
        128
    } else if j == 1 {
        64
    } else if j == 2 {
        32
    } else if j == 3 {
        16
    } else if j == 4 {
        8
    } else if j == 5 {
        4
    } else if j == 6 {
        2
    } else {
        1
    }
}

/// The byte that packs the eight bits of a row starting at `start`,
/// most significant bit first.
pub open spec fn pack_byte(bits: Seq<bool>, start: int) -> u8 {
    ((if bit_at(bits, start) {
        bit_weight(0) as int
    } else {
        0
    }) + (if bit_at(bits, start + 1) {
        bit_weight(1) as int
    } else {
        0
    }) + (if bit_at(bits, start + 2) {
        bit_weight(2) as int
    } else {
        0
    }) + (if bit_at(bits, start + 3) {
        bit_weight(3) as int
    } else {
        0
    }) + (if bit_at(bits, start + 4) {
        bit_weight(4) as int
    } else {
        0
    }) + (if bit_at(bits, start + 5) {
        bit_weight(5) as int
    } else {
        0
    }) + (if bit_at(bits, start + 6) {
        bit_weight(6) as int
    } else {
        0
    }) + (if bit_at(bits, start + 7) {
        bit_weight(7) as int
    } else {
        0
    })) as u8
}

/// The foreground bits of row `y` of a raster `cols` pixels wide: a
/// pixel is foreground when its luminance reaches half the channel
/// range.
pub open spec fn fg_row_bits(pixels: Seq<Quantum>, cols: nat, y: nat) -> Seq<bool> {
    Seq::new(cols, |x: int| pixel_is_foreground(pixels, y * cols + x))
}

/// The packed pixel data of a raster: each row packed eight bits per
/// byte, most significant bit first, rows in order, no padding between
/// rows.
pub open spec fn wbmp_pixel_payload(pixels: Seq<Quantum>, cols: nat, rows: nat) -> Seq<u8> {
    Seq::new(
        rows * bytes_per_row(cols),
        |i: int|
            pack_byte(
                fg_row_bits(pixels, cols, (i / (bytes_per_row(cols) as int)) as nat),
                8 * (i % (bytes_per_row(cols) as int)),
            ),
    )
}

/// The whole stream a WBMP encode writes for a raster: the two-byte zero
/// header, the dimensions as variable-length integers, then the packed
/// pixel data.
pub open spec fn wbmp_stream(pixels: Seq<Quantum>, cols: nat, rows: nat) -> Seq<u8> {
    seq![0u8, 0u8] + varint_encode(cols) + varint_encode(rows) + wbmp_pixel_payload(
        pixels,
        cols,
        rows,
    )
}

/// The weight of one bit position, as a value.
fn bit_weight_value(j: usize) -> (r: u8)
    requires
        j < 8,
    ensures
        r == bit_weight(j as int),
{
    if j == 0 {
        128
    } else if j == 1 {
        64
    } else if j == 2 {
        32
    } else if j == 3 {
        16
    } else if j == 4 {
        8
    } else if j == 5 {
        4
    } else if j == 6 {
        2
    } else {
        1
    }
}

/// Reducing a raster to bilevel keeps each pixel on the same side of the
/// luminance threshold.
proof fn lemma_bilevel_fg(pixels: Seq<Quantum>, p: int)
    requires
        0 <= p,
        (p + 1) * CHANNELS <= pixels.len(),
    ensures
        pixel_is_foreground(bilevel_of(pixels), p) == pixel_is_foreground(pixels, p),
{
    assert(p * CHANNELS + CHANNELS == (p + 1) * CHANNELS && p * CHANNELS >= 0)
        by (nonlinear_arith)
        requires
            p >= 0,
    ;
    lemma_slot_decompose_local(p as nat, 0);
    lemma_slot_decompose_local(p as nat, 1);
    lemma_slot_decompose_local(p as nat, 2);
    let v = if pixel_is_foreground(pixels, p) {
        QUANTUM_RANGE
    } else {
        0u16
    };
    assert(bilevel_of(pixels)[p * CHANNELS + 0] == Quantum(v));
    assert(bilevel_of(pixels)[p * CHANNELS + 1] == Quantum(v));
    assert(bilevel_of(pixels)[p * CHANNELS + 2] == Quantum(v));
}

/// A flat index splits into its pixel number and channel offset.
proof fn lemma_slot_decompose_local(p: nat, c: nat)
    requires
        c < CHANNELS,
    ensures
        (p * CHANNELS + c) as int / (CHANNELS as int) == p,
        (p * CHANNELS + c) as int % (CHANNELS as int) == c,
{
    vstd::arithmetic::div_mod::lemma_fundamental_div_mod_converse(
        (p * CHANNELS + c) as int,
        CHANNELS as int,
        p as int,
        c as int,
    );
}

/// A row view of the raster hands out exactly the raster's samples.
proof fn lemma_row_view_slot(pixels: Seq<Quantum>, cols: nat, y: nat, x: nat, c: nat)
    requires
        x < cols,
        c < CHANNELS,
    ensures
        region_seq(pixels, cols, 0, y, cols, 1)[(x * CHANNELS + c) as int] == pixels[((y * cols
            + x) * CHANNELS + c) as int],
{
    let k = (x * CHANNELS + c) as int;
    let d = (cols * CHANNELS) as int;
    assert(0 <= k < d && k < cols * 1 * CHANNELS) by (nonlinear_arith)
        requires
            x < cols,
            c < CHANNELS,
            k == (x * CHANNELS + c) as int,
            d == (cols * CHANNELS) as int,
            CHANNELS == 5,
    ;
    assert(k / d == 0 && k % d == k) by (nonlinear_arith)
        requires
            0 <= k < d,
            d > 0,
    ;
    assert(((y + 0) * cols + 0) * CHANNELS + k == ((y * cols + x) * CHANNELS + c) as int)
        by (nonlinear_arith)
        requires
            k == (x * CHANNELS + c) as int,
    ;
}

/// A pixel's threshold bit is unchanged by the bilevel reduction, row by
/// row, so the packed payload of the reduced raster equals that of the
/// original.
proof fn lemma_payload_bilevel(pixels: Seq<Quantum>, cols: nat, rows: nat)
    requires
        pixels.len() == cols * rows * CHANNELS,
    ensures
        wbmp_pixel_payload(bilevel_of(pixels), cols, rows) == wbmp_pixel_payload(
            pixels,
            cols,
            rows,
        ),
{
    let bp = bilevel_of(pixels);
    assert forall|y: int| 0 <= y < rows implies #[trigger] fg_row_bits(bp, cols, y as nat)
        == fg_row_bits(pixels, cols, y as nat) by {
        assert forall|x: int| 0 <= x < cols implies #[trigger] fg_row_bits(bp, cols, y as nat)[x]
            == fg_row_bits(pixels, cols, y as nat)[x] by {
            let p = y * cols + x;
            assert(0 <= p && (p + 1) * CHANNELS <= pixels.len()) by (nonlinear_arith)
                requires
                    0 <= y < rows,
                    0 <= x < cols,
                    p == y * cols + x,
                    pixels.len() == cols * rows * CHANNELS,
                    CHANNELS == 5,
            ;
            lemma_bilevel_fg(pixels, p);
        }
        assert(fg_row_bits(bp, cols, y as nat) =~= fg_row_bits(pixels, cols, y as nat));
    }
    assert forall|i: int|
        0 <= i < wbmp_pixel_payload(bp, cols, rows).len() implies wbmp_pixel_payload(
        bp,
        cols,
        rows,
    )[i] == wbmp_pixel_payload(pixels, cols, rows)[i] by {
        let bpr = bytes_per_row(cols) as int;
        assert(bpr > 0 && i / bpr < rows) by (nonlinear_arith)
            requires
                0 <= i < rows * (bytes_per_row(cols) as int),
                bpr == bytes_per_row(cols) as int,
        ;
    }
    assert(wbmp_pixel_payload(bp, cols, rows) =~= wbmp_pixel_payload(pixels, cols, rows));
}

/// How an encoded image relates to the image the host handed in: the
/// raster is reduced to bilevel in the sRGB colourspace, the attached
/// stream holds the packed WBMP encoding of the original raster, one
/// progress report per row is appended, and everything else is kept.
pub open spec fn wbmp_encoded(o: Image, n: Image) -> bool {
    &&& n == (Image {
        colorspace: Colorspace::SRGB,
        image_type: ImageType::Bilevel,
        pixels: n.pixels,
        blob: n.blob,
        progress: n.progress,
        ..o
    })
    &&& n.pixels@ == bilevel_of(o.pixels@)
    &&& n.blob@ == wbmp_stream(o.pixels@, o.columns as nat, o.rows as nat)
    &&& n.progress@ == o.progress@ + Seq::new(o.rows as nat, |k: int| (k as usize, o.rows))
}

/// Encodes an image as a WBMP stream: converts it to the sRGB
/// colourspace and a bilevel type, writes the two-byte zero header and
/// the dimensions as variable-length integers, then packs one threshold
/// bit per pixel, eight per byte, most significant bit first, flushing a
/// partial byte at the end of each row, and reports progress per row.
pub fn write_wbmp_image(
    image_info: &ImageInfo,
    image: &mut Image,
    exception_info: &mut ExceptionInfo,
) -> (r: Result<(), ()>)
    requires
        old(exception_info).is_clear(),
        old(image).extent_set(),
        old(image).blob_state == BlobState::Closed,
    ensures
        r is Ok,
        final(exception_info).is_clear(),
        wbmp_encoded(*old(image), *final(image)),
{
    let columns = image.columns();
    let rows = image.rows();

    let mut blob = image.open_blob_write(image_info, BlobMode::Binary, exception_info)?;
    let r1 = image.transform_colorspace(Colorspace::SRGB, exception_info);
    if r1.is_err() {
        proof {
            assert(false);
        }
        return Err(());
    }
    proof {
        let ghost cr = (columns * rows) as int;
        assert(image.pixels@.len() as int % (CHANNELS as int) == 0) by (nonlinear_arith)
            requires
                image.pixels@.len() == columns * rows * CHANNELS,
                CHANNELS == 5,
        ;
    }
    let r2 = image.set_type(ImageType::Bilevel, exception_info);
    if r2.is_err() {
        proof {
            assert(false);
        }
        return Err(());
    }

    blob.write_u16_be(0);
    write_wbmp_integer(&mut blob, columns);
    write_wbmp_integer(&mut blob, rows);
    let ghost hdr = blob.data@;
    proof {
        assert(hdr =~= seq![0u8, 0u8] + varint_encode(columns as nat) + varint_encode(
            rows as nat,
        ));
    }

    let ghost img1 = *image;
    let ghost bpix = image.pixels@;
    let ghost payload = wbmp_pixel_payload(bpix, columns as nat, rows as nat);
    let ghost bpr = bytes_per_row(columns as nat);

    let mut y: usize = 0;
    while y < rows
        invariant
            y <= rows,
            exception_info.is_clear(),
            *image == (Image { progress: image.progress, ..img1 }),
            img1.columns == columns,
            img1.rows == rows,
            img1.blob_state == BlobState::OpenForWrite,
            img1.pixels@ == bpix,
            image.extent_set(),
            bpix.len() == columns * rows * CHANNELS,
            bpr == bytes_per_row(columns as nat),
            payload == wbmp_pixel_payload(bpix, columns as nat, rows as nat),
            payload.len() == rows * bpr,
            blob.data@ == hdr + payload.subrange(0, y * bpr),
            image.progress@ == img1.progress@ + Seq::new(y as nat, |k: int| (k as usize, rows)),
        decreases rows - y,
    {
        let p = image.get_virtual_pixels(0, y, columns, 1, exception_info)?;
        let ghost row = fg_row_bits(bpix, columns as nat, y as nat);
        let mut bit: usize = 0;
        let mut byte: u8 = 0;
        let mut x: usize = 0;
        while x < columns
            invariant
                x <= columns,
                y < rows,
                exception_info.is_clear(),
                p.wf(),
                p.columns == columns,
                p.rows == 1,
                p.quantums@ == region_seq(bpix, columns as nat, 0, y as nat, columns as nat, 1),
                bpix.len() == columns * rows * CHANNELS,
                bpr == bytes_per_row(columns as nat),
                payload == wbmp_pixel_payload(bpix, columns as nat, rows as nat),
                payload.len() == rows * bpr,
                row == fg_row_bits(bpix, columns as nat, y as nat),
                row.len() == columns,
                bit == x % 8,
                byte == pack_byte(row.subrange(0, x as int), 8 * ((x / 8) as int)),
                blob.data@ == hdr + payload.subrange(0, y * bpr + x / 8),
            decreases columns - x,
        {
            proof {
                assert(x < columns * 1) by (nonlinear_arith)
                    requires
                        x < columns,
                ;
                lemma_row_view_slot(bpix, columns as nat, y as nat, x as nat, 0);
                lemma_row_view_slot(bpix, columns as nat, y as nat, x as nat, 1);
                lemma_row_view_slot(bpix, columns as nat, y as nat, x as nat, 2);
            }
            let l = p.get_pixel_luma(x);
            proof {
                assert(row[x as int] == pixel_is_foreground(bpix, y * columns + x));
                assert((2 * (l as u32) > QUANTUM_RANGE as u32) == row[x as int]);
            }
            proof {
                lemma_pack_byte_grow(row, x as int, byte);
            }
            if 2 * (l as u32) > QUANTUM_RANGE as u32 {
                let w = bit_weight_value(bit);
                byte = byte + w;
            }
            proof {
                assert(byte == pack_byte(row.subrange(0, x + 1), 8 * ((x / 8) as int)));
            }
            bit = bit + 1;
            if bit == 8 {
                proof {
                    lemma_flush_byte(row, payload, bpix, columns as nat, rows as nat, bpr,
                        x as int, y as int);
                }
                blob.write_u8(byte);
                proof {
                    assert(blob.data@ =~= hdr + payload.subrange(0, y * bpr + x / 8 + 1));
                }
                bit = 0;
                byte = 0;
            }
            proof {
                vstd::arithmetic::div_mod::lemma_fundamental_div_mod(x as int, 8);
                if x % 8 == 7 {
                    vstd::arithmetic::div_mod::lemma_fundamental_div_mod_converse(
                        x + 1,
                        8,
                        x as int / 8 + 1,
                        0,
                    );
                } else {
                    vstd::arithmetic::div_mod::lemma_fundamental_div_mod_converse(
                        x + 1,
                        8,
                        x as int / 8,
                        x as int % 8 + 1,
                    );
                }
                assert(row.subrange(0, x as int + 1) == row.subrange(0, (x + 1) as int));
            }
            x = x + 1;
        }
        if bit != 0 {
            proof {
                lemma_flush_partial(row, payload, bpix, columns as nat, rows as nat, bpr,
                    columns as int, y as int);
            }
            blob.write_u8(byte);
            proof {
                assert(blob.data@ =~= hdr + payload.subrange(0, y * bpr + columns / 8 + 1));
                assert(y * bpr + columns / 8 + 1 == (y + 1) * bpr) by {
                    vstd::arithmetic::div_mod::lemma_fundamental_div_mod(columns as int, 8);
                    vstd::arithmetic::div_mod::lemma_fundamental_div_mod_converse(
                        columns as int + 7,
                        8,
                        columns as int / 8 + 1,
                        columns as int % 8 - 1,
                    );
                    assert(y * bpr + bpr == (y + 1) * bpr) by (nonlinear_arith);
                }
            }
        } else {
            proof {
                assert(columns % 8 == 0);
                vstd::arithmetic::div_mod::lemma_fundamental_div_mod(columns as int, 8);
                vstd::arithmetic::div_mod::lemma_fundamental_div_mod_converse(
                    columns as int + 7,
                    8,
                    columns as int / 8,
                    7,
                );
                assert(y * bpr + columns / 8 == (y + 1) * bpr) by (nonlinear_arith)
                    requires
                        bpr == (columns as int + 7) / 8,
                        (columns as int + 7) / 8 == columns as int / 8,
                ;
            }
        }
        image.set_progress(y, rows);
        proof {
            assert(image.progress@ =~= img1.progress@ + Seq::new(
                (y + 1) as nat,
                |k: int| (k as usize, rows),
            ));
        }
        y = y + 1;
    }
    proof {
        assert(payload.subrange(0, rows * bpr) == payload);
    }
    image.close_blob_write(blob);
    proof {
        lemma_payload_bilevel(old(image).pixels@, columns as nat, rows as nat);
        assert(image.blob@ =~= wbmp_stream(
            old(image).pixels@,
            columns as nat,
            rows as nat,
        ));
    }
    Ok(())
}

/// Extending the seen part of a row by one pixel adds exactly that
/// pixel's weight to the byte being packed.
proof fn lemma_pack_byte_grow(row: Seq<bool>, x: int, byte: u8)
    requires
        0 <= x < row.len(),
        byte == pack_byte(row.subrange(0, x), 8 * (x / 8)),
    ensures
        byte + (if row[x] {
            bit_weight(x % 8) as int
        } else {
            0
        }) == pack_byte(row.subrange(0, x + 1), 8 * (x / 8)),
        byte + bit_weight(x % 8) <= 255,
{
    let start = 8 * (x / 8);
    let a = row.subrange(0, x);
    let b = row.subrange(0, x + 1);
    vstd::arithmetic::div_mod::lemma_fundamental_div_mod(x, 8);
    assert(start + x % 8 == x);
    assert forall|j: int| 0 <= j < 8 && j != x % 8 implies #[trigger] bit_at(b, start + j)
        == bit_at(a, start + j) by {
        if start + j < x {
            assert(a[start + j] == row[start + j] && b[start + j] == row[start + j]);
        }
    }
    assert(!bit_at(a, x));
    assert(bit_at(b, x) == row[x]);
}

/// A full byte of a row, flushed at position `x` (the last bit of its
/// group), is the packed payload byte at that position.
proof fn lemma_flush_byte(
    row: Seq<bool>,
    payload: Seq<u8>,
    pixels: Seq<Quantum>,
    cols: nat,
    rows: nat,
    bpr: nat,
    x: int,
    y: int,
)
    requires
        0 <= x < cols,
        0 <= y < rows,
        x % 8 == 7,
        row == fg_row_bits(pixels, cols, y as nat),
        bpr == bytes_per_row(cols),
        payload == wbmp_pixel_payload(pixels, cols, rows),
    ensures
        0 <= y * bpr + x / 8 < payload.len(),
        pack_byte(row.subrange(0, x + 1), 8 * (x / 8)) == payload[y * bpr + x / 8],
{
    lemma_payload_byte(row, payload, pixels, cols, rows, bpr, x, y);
}

/// A partial final byte of a row, flushed after the last pixel, is the
/// packed payload byte at the row's end.
proof fn lemma_flush_partial(
    row: Seq<bool>,
    payload: Seq<u8>,
    pixels: Seq<Quantum>,
    cols: nat,
    rows: nat,
    bpr: nat,
    x: int,
    y: int,
)
    requires
        0 < x == cols,
        0 <= y < rows,
        x % 8 != 0,
        row == fg_row_bits(pixels, cols, y as nat),
        bpr == bytes_per_row(cols),
        payload == wbmp_pixel_payload(pixels, cols, rows),
    ensures
        0 <= y * bpr + x / 8 < payload.len(),
        pack_byte(row.subrange(0, x), 8 * (x / 8)) == payload[y * bpr + x / 8],
{
    lemma_payload_byte(row, payload, pixels, cols, rows, bpr, x - 1, y);
    assert(row.subrange(0, x) == row.subrange(0, (x - 1) + 1));
    vstd::arithmetic::div_mod::lemma_fundamental_div_mod(x, 8);
    vstd::arithmetic::div_mod::lemma_fundamental_div_mod_converse(x - 1, 8, x / 8, x % 8 - 1);
}

/// The byte holding pixel `x` of row `y` is the payload byte at index
/// `y * bpr + x / 8`, once every bit of that byte that lies inside the
/// row has been seen.
proof fn lemma_payload_byte(
    row: Seq<bool>,
    payload: Seq<u8>,
    pixels: Seq<Quantum>,
    cols: nat,
    rows: nat,
    bpr: nat,
    x: int,
    y: int,
)
    requires
        0 <= x < cols,
        0 <= y < rows,
        x % 8 == 7 || x == cols - 1,
        row == fg_row_bits(pixels, cols, y as nat),
        bpr == bytes_per_row(cols),
        payload == wbmp_pixel_payload(pixels, cols, rows),
    ensures
        0 <= y * bpr + x / 8 < payload.len(),
        pack_byte(row.subrange(0, x + 1), 8 * (x / 8)) == payload[y * bpr + x / 8],
{
    let k = x / 8;
    vstd::arithmetic::div_mod::lemma_fundamental_div_mod(x, 8);
    // The byte index lies inside the row's bytes.
    assert(k < bpr) by {
        assert(x / 8 <= (cols - 1) / 8) by {
            vstd::arithmetic::div_mod::lemma_div_is_ordered(x, cols - 1, 8);
        }
        assert((cols - 1) / 8 < (cols as int + 7) / 8) by {
            vstd::arithmetic::div_mod::lemma_fundamental_div_mod(cols - 1, 8);
            vstd::arithmetic::div_mod::lemma_fundamental_div_mod_converse(
                cols as int + 7,
                8,
                (cols - 1) / 8 + 1,
                (cols - 1) % 8,
            );
        }
    }
    let i = y * (bpr as int) + k;
    assert(0 <= i < rows * bpr && i / (bpr as int) == y && i % (bpr as int) == k) by {
        assert(y * (bpr as int) + bpr <= rows * bpr) by (nonlinear_arith)
            requires
                y < rows,
                bpr > 0,
        ;
        vstd::arithmetic::div_mod::lemma_fundamental_div_mod_converse(
            i,
            bpr as int,
            y,
            k,
        );
    }
    // Every bit of the byte is either inside the seen prefix or past the
    // row's end, and in both cases packing sees the same bit.
    let a = row.subrange(0, x + 1);
    assert forall|j: int| 0 <= j < 8 implies #[trigger] bit_at(a, 8 * k + j) == bit_at(
        row,
        8 * k + j,
    ) by {
        if 8 * k + j <= x {
            assert(a[8 * k + j] == row[8 * k + j]);
        } else {
            assert(8 * k + j > x);
            if x % 8 == 7 {
                assert(8 * k + j <= 8 * k + 7 == x);
            } else {
                assert(x == cols - 1);
                assert(8 * k + j >= cols ==> !bit_at(row, 8 * k + j) && !bit_at(a, 8 * k + j));
            }
        }
    }
    assert(pack_byte(a, 8 * k) == pack_byte(row, 8 * k));
}

// ---------------------------------------------------------------------
// The encode-then-decode round trip.
// ---------------------------------------------------------------------

/// Each bit of a sum of eight distinct place-value terms reads back the
/// term that fed it.
proof fn lemma_byte_bits(yv: u8, t0: u8, t1: u8, t2: u8, t3: u8, t4: u8, t5: u8, t6: u8, t7: u8)
    by (bit_vector)
    requires
        yv == t0 + t1 + t2 + t3 + t4 + t5 + t6 + t7,
        t0 == 0 || t0 == 128,
        t1 == 0 || t1 == 64,
        t2 == 0 || t2 == 32,
        t3 == 0 || t3 == 16,
        t4 == 0 || t4 == 8,
        t5 == 0 || t5 == 4,
        t6 == 0 || t6 == 2,
        t7 == 0 || t7 == 1,
    ensures
        (yv >> 7u8) & 1 == (if t0 == 0 { 0u8 } else { 1u8 }),
        (yv >> 6u8) & 1 == (if t1 == 0 { 0u8 } else { 1u8 }),
        (yv >> 5u8) & 1 == (if t2 == 0 { 0u8 } else { 1u8 }),
        (yv >> 4u8) & 1 == (if t3 == 0 { 0u8 } else { 1u8 }),
        (yv >> 3u8) & 1 == (if t4 == 0 { 0u8 } else { 1u8 }),
        (yv >> 2u8) & 1 == (if t5 == 0 { 0u8 } else { 1u8 }),
        (yv >> 1u8) & 1 == (if t6 == 0 { 0u8 } else { 1u8 }),
        (yv >> 0u8) & 1 == (if t7 == 0 { 0u8 } else { 1u8 }),
{
}

/// Unpacking bit `k` of a packed byte yields the bit that was packed.
proof fn lemma_pack_byte_bit(bits: Seq<bool>, start: int, k: nat)
    requires
        k < 8,
    ensures
        byte_bit(pack_byte(bits, start), k) == bit_at(bits, start + k),
{
    let t0: u8 = if bit_at(bits, start) { 128 } else { 0 };
    let t1: u8 = if bit_at(bits, start + 1) { 64 } else { 0 };
    let t2: u8 = if bit_at(bits, start + 2) { 32 } else { 0 };
    let t3: u8 = if bit_at(bits, start + 3) { 16 } else { 0 };
    let t4: u8 = if bit_at(bits, start + 4) { 8 } else { 0 };
    let t5: u8 = if bit_at(bits, start + 5) { 4 } else { 0 };
    let t6: u8 = if bit_at(bits, start + 6) { 2 } else { 0 };
    let t7: u8 = if bit_at(bits, start + 7) { 1 } else { 0 };
    let yv = pack_byte(bits, start);
    assert(yv == t0 + t1 + t2 + t3 + t4 + t5 + t6 + t7);
    lemma_byte_bits(yv, t0, t1, t2, t3, t4, t5, t6, t7);
    if k == 0 {
        assert((7 - k) as u8 == 7u8);
    } else if k == 1 {
        assert((7 - k) as u8 == 6u8);
    } else if k == 2 {
        assert((7 - k) as u8 == 5u8);
    } else if k == 3 {
        assert((7 - k) as u8 == 4u8);
    } else if k == 4 {
        assert((7 - k) as u8 == 3u8);
    } else if k == 5 {
        assert((7 - k) as u8 == 2u8);
    } else if k == 6 {
        assert((7 - k) as u8 == 1u8);
    } else {
        assert((7 - k) as u8 == 0u8);
    }
}

/// The round-trip law: the stream an encode writes for any raster parses
/// back to the same dimensions, carries exactly the pixel bytes it
/// declares, and every pixel bit read back equals the raster's threshold
/// bit.  Together with the decoder's contract this says a decode of an
/// encoded raster reproduces the identical bit pattern.
pub proof fn lemma_wbmp_round_trip(pixels: Seq<Quantum>, cols: usize, rows: usize)
    requires
        1 <= cols,
        1 <= rows,
        pixels.len() == cols * rows * CHANNELS,
    ensures
        ({
            let s = wbmp_stream(pixels, cols as nat, rows as nat);
            let ds = 2 + varint_encode(cols as nat).len() + varint_encode(rows as nat).len();
            &&& parse_wbmp_header(s) == (WbmpHeader::Parsed {
                columns: cols,
                rows,
                data_start: ds as int,
            })
            &&& s.len() == ds + rows * bytes_per_row(cols as nat)
            &&& forall|x: int, y: int|
                0 <= x < cols && 0 <= y < rows ==> #[trigger] wbmp_bit(
                    s,
                    ds as int,
                    cols as nat,
                    x as nat,
                    y as nat,
                ) == pixel_is_foreground(pixels, y * cols + x)
        }),
{
    let e1 = varint_encode(cols as nat);
    let e2 = varint_encode(rows as nat);
    let payload = wbmp_pixel_payload(pixels, cols as nat, rows as nat);
    let s = wbmp_stream(pixels, cols as nat, rows as nat);
    let ds = 2 + e1.len() + e2.len();
    lemma_varint_encode_form(cols as nat);
    lemma_varint_encode_form(rows as nat);
    assert(s[0] == 0 && s[1] == 0);
    assert(forall|j: int| 0 <= j < e1.len() ==> s[2 + j] == e1[j]);
    lemma_varint_round_trip(s, 2, cols);
    assert(forall|j: int| 0 <= j < e2.len() ==> s[2 + e1.len() + j] == e2[j]);
    lemma_varint_round_trip(s, 2 + e1.len() as int, rows);
    assert(varint_parse(s, 2, 0) == Some((cols, 2 + e1.len() as int)));
    assert(varint_parse(s, 2 + e1.len() as int, 0) == Some((rows, ds as int)));
    let bpr = bytes_per_row(cols as nat);
    assert(payload.len() == rows * bpr);
    assert(s.len() == ds + rows * bpr);
    assert forall|x: int, y: int| 0 <= x < cols && 0 <= y < rows implies #[trigger] wbmp_bit(
        s,
        ds as int,
        cols as nat,
        x as nat,
        y as nat,
    ) == pixel_is_foreground(pixels, y * cols + x) by {
        let k = x / 8;
        vstd::arithmetic::div_mod::lemma_fundamental_div_mod(x, 8);
        assert(k < bpr) by {
            assert(x / 8 <= (cols - 1) / 8) by {
                vstd::arithmetic::div_mod::lemma_div_is_ordered(x, cols as int - 1, 8);
            }
            assert((cols as int - 1) / 8 < (cols as int + 7) / 8) by {
                vstd::arithmetic::div_mod::lemma_fundamental_div_mod(cols as int - 1, 8);
                vstd::arithmetic::div_mod::lemma_fundamental_div_mod_converse(
                    cols as int + 7,
                    8,
                    (cols as int - 1) / 8 + 1,
                    (cols as int - 1) % 8,
                );
            }
        }
        let i = y * (bpr as int) + k;
        assert(0 <= i < rows * bpr && i / (bpr as int) == y && i % (bpr as int) == k) by {
            assert(y * (bpr as int) + bpr <= rows * bpr) by (nonlinear_arith)
                requires
                    y < rows,
                    bpr > 0,
            ;
            vstd::arithmetic::div_mod::lemma_fundamental_div_mod_converse(i, bpr as int, y, k);
        }
        assert(s[ds + i] == payload[i]);
        let row = fg_row_bits(pixels, cols as nat, y as nat);
        assert(payload[i] == pack_byte(row, 8 * k));
        lemma_pack_byte_bit(row, 8 * k, (x % 8) as nat);
        assert(8 * k + x % 8 == x);
        assert(bit_at(row, x) == pixel_is_foreground(pixels, y * cols + x));
    }
}

/// Installs the WBMP coder into the host's registry: a non-adjoining,
/// explicit raster format.  Returns the bridge's compiled interface
/// signature for the host to compare against its own.
pub fn register_wbmp_image(registry: &mut FormatRegistry) -> (sig: usize)
    ensures
        final(registry).entries@ == old(registry).entries@.push(
            CoderEntry {
                id: CoderId::Wbmp,
                flags: CoderFlags(CODER_FLAGS_DEFAULT & !CODER_FLAG_ADJOIN),
                format_type: FormatType::Undefined,
            },
        ),
        sig == IMAGE_CODER_SIGNATURE,
{
    let flags = CoderFlags(CODER_FLAGS_DEFAULT).difference(CoderFlags(CODER_FLAG_ADJOIN));
    registry.register(
        CoderEntry { id: CoderId::Wbmp, flags, format_type: FormatType::Undefined },
    )
}

/// Removes the WBMP coder from the host's registry; removing it twice is
/// harmless.
pub fn unregister_wbmp_image(registry: &mut FormatRegistry)
    ensures
        final(registry).entries@ == without(old(registry).entries@, CoderId::Wbmp),
{
    registry.unregister(CoderId::Wbmp);
}

} // verus!
