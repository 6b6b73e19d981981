//! Handle wrappers and pixel-buffer views: the image object a codec
//! drives during one decode or encode call.
//!
//! An image is modelled as plain data: a flat buffer of channel samples
//! (`CHANNELS` per pixel, row-major), a palette, the attached byte
//! stream, and metadata.  All operations that the host could refuse are
//! gated on the exception channel: a failure already recorded makes every
//! later operation refuse to act, so severity stays authoritative.
//!
//! The attached stream is opened for reading or for writing, never both,
//! and every open is paired with exactly one explicit close; the
//! `blob_state` field tracks that discipline and the codecs' contracts
//! show the stream closed again on return.

use vstd::prelude::*;

use crate::blob::{BlobReader, BlobWriter};
use crate::exception::{thrown, Exception, ExceptionInfo, ExceptionTag};
use crate::{PixelInfo, Quantum};
use crate::{ALPHA_CHANNEL, BLUE_CHANNEL, CHANNELS, GREEN_CHANNEL, INDEX_CHANNEL, OPAQUE_ALPHA,
    QUANTUM_RANGE, RED_CHANNEL};

verus! {

/// Whether the alpha channel takes part in blending.
#[derive(Clone, Copy, Debug, PartialEq, Eq, Structural)]
pub enum PixelTrait {
    Undefined,
    Blend,
}

/// The colourspace an image's samples are expressed in.
#[derive(Clone, Copy, Debug, PartialEq, Eq, Structural)]
pub enum Colorspace {
    Undefined,
    SRGB,
}

/// A storage category an image can be reduced to.
#[derive(Clone, Copy, Debug, PartialEq, Eq, Structural)]
pub enum ImageType {
    Undefined,
    Bilevel,
}

/// How an attached stream is opened; only binary streams are in scope.
#[derive(Clone, Copy, Debug, PartialEq, Eq, Structural)]
pub enum BlobMode {
    Binary,
}

/// Whether the attached stream is closed or open, and in which direction.
#[derive(Clone, Copy, Debug, PartialEq, Eq, Structural)]
pub enum BlobState {
    Closed,
    OpenForRead,
    OpenForWrite,
}

/// The read-only configuration the host supplies for one decode or
/// encode request: target extent, background colour, whether the call is
/// a metadata-only probe, and the input bytes of the attached stream.
pub struct ImageInfo {
    pub columns: usize,
    pub rows: usize,
    pub background_color: PixelInfo,
    pub ping: bool,
    pub blob: Vec<u8>,
}

/// The in-memory raster plus metadata.  `pixels` is empty until an
/// extent is set; afterwards it holds `columns * rows * CHANNELS`
/// channel samples in row-major order.
pub struct Image {
    pub columns: usize,
    pub rows: usize,
    pub background_color: PixelInfo,
    pub alpha_trait: PixelTrait,
    pub colorspace: Colorspace,
    pub image_type: ImageType,
    pub ping: bool,
    pub pixels: Vec<Quantum>,
    pub colormap: Vec<PixelInfo>,
    pub blob: Vec<u8>,
    pub blob_state: BlobState,
    pub progress: Vec<(usize, usize)>,
}

/// Largest palette the host will allocate.
pub const MAX_COLORMAP_SIZE: usize = 65536;

/// The gray intensity of entry `i` in a fresh `n`-entry palette: a ramp
/// from black to white.
pub open spec fn gray_level(i: nat, n: nat) -> u16 {
    ((i * QUANTUM_RANGE) as int / (if n <= 1 { 1int } else { n - 1 })) as u16
}

/// A fresh `n`-entry palette: an opaque gray ramp.
pub open spec fn colormap_ramp(n: nat) -> Seq<PixelInfo> {
    Seq::new(
        n,
        |i: int|
            PixelInfo {
                red: Quantum(gray_level(i as nat, n)),
                green: Quantum(gray_level(i as nat, n)),
                blue: Quantum(gray_level(i as nat, n)),
                alpha: Quantum(OPAQUE_ALPHA),
            },
    )
}

/// The channel sample of pixel `(x, y)` at channel offset `c`, in a
/// buffer that is `cols` pixels wide.
pub open spec fn slot(pixels: Seq<Quantum>, cols: nat, x: nat, y: nat, c: nat) -> u16 {
    pixels[((y * cols + x) * (CHANNELS as nat) + c) as int].0
}

impl ImageInfo {
    /// A decode or encode request.
    pub fn new(
        columns: usize,
        rows: usize,
        background_color: PixelInfo,
        ping: bool,
        blob: Vec<u8>,
    ) -> (r: ImageInfo)
        ensures
            r == (ImageInfo { columns, rows, background_color, ping, blob }),
    {
        ImageInfo { columns, rows, background_color, ping, blob }
    }

    /// The image a decode call starts from: the request's extent,
    /// background colour and probe flag, with no pixel storage, no
    /// palette, and the attached stream closed.
    pub open spec fn is_fresh_image(&self, img: Image) -> bool {
        &&& img.columns == self.columns
        &&& img.rows == self.rows
        &&& img.background_color == self.background_color
        &&& img.alpha_trait == PixelTrait::Undefined
        &&& img.colorspace == Colorspace::SRGB
        &&& img.image_type == ImageType::Undefined
        &&& img.ping == self.ping
        &&& img.pixels@ == Seq::<Quantum>::empty()
        &&& img.colormap@ == Seq::<PixelInfo>::empty()
        &&& img.blob@ == Seq::<u8>::empty()
        &&& img.blob_state == BlobState::Closed
        &&& img.progress@ == Seq::<(usize, usize)>::empty()
    }

    /// Allocates a brand-new image for decode.  Fails only when the
    /// exception channel already records a failure.
    pub fn acquire_image(&self, exception_info: &mut ExceptionInfo) -> (r: Result<Image, ()>)
        ensures
            *final(exception_info) == *old(exception_info),
            if old(exception_info).is_clear() {
                r matches Ok(img) && self.is_fresh_image(img)
            } else {
                r is Err
            },
    {
        let image = Image {
            columns: self.columns,
            rows: self.rows,
            background_color: self.background_color,
            alpha_trait: PixelTrait::Undefined,
            colorspace: Colorspace::SRGB,
            image_type: ImageType::Undefined,
            ping: self.ping,
            pixels: Vec::new(),
            colormap: Vec::new(),
            blob: Vec::new(),
            blob_state: BlobState::Closed,
            progress: Vec::new(),
        };
        exception_info.check()?;
        proof {
            assert(image.pixels@ =~= Seq::<Quantum>::empty());
            assert(image.colormap@ =~= Seq::<PixelInfo>::empty());
            assert(image.blob@ =~= Seq::<u8>::empty());
            assert(image.progress@ =~= Seq::<(usize, usize)>::empty());
        }
        Ok(image)
    }
}

impl Image {
    /// The pixel buffer has been materialized for the current extent.
    pub open spec fn extent_set(&self) -> bool {
        self.pixels@.len() == self.columns * self.rows * CHANNELS
    }

    /// Height in pixels.
    pub fn rows(&self) -> (r: usize)
        ensures
            r == self.rows,
    {
        self.rows
    }

    /// Width in pixels.
    pub fn columns(&self) -> (r: usize)
        ensures
            r == self.columns,
    {
        self.columns
    }

    /// The nominal background colour of the image.
    pub fn background_color(&self) -> (r: PixelInfo)
        ensures
            r == self.background_color,
    {
        self.background_color
    }

    /// Channel samples each pixel occupies in the buffer.
    pub fn num_channels(&self) -> (r: usize)
        ensures
            r == CHANNELS,
    {
        CHANNELS
    }

    /// Whether this call is a metadata-only probe that must not
    /// materialize pixels.
    pub fn is_ping(&self) -> (r: bool)
        ensures
            r == self.ping,
    {
        self.ping
    }

    /// Sets whether the alpha channel participates in blending.
    pub fn set_alpha_trait(&mut self, value: PixelTrait)
        ensures
            *final(self) == (Image { alpha_trait: value, ..*old(self) }),
    {
        self.alpha_trait = value;
    }

    /// Reports row progress to the host.  Advisory only: it never fails,
    /// and the log of reports is part of the model so that contracts can
    /// show one report per completed row.
    pub fn set_progress(&mut self, offset: usize, extent: usize)
        ensures
            *final(self) == (Image { progress: final(self).progress, ..*old(self) }),
            final(self).progress@ == old(self).progress@.push((offset, extent)),
    {
        self.progress.push((offset, extent));
    }

    /// Opens the attached stream for reading the request's input bytes.
    /// The stream must be closed, and exactly one close must follow.
    pub fn open_blob_read(
        &mut self,
        image_info: &ImageInfo,
        mode: BlobMode,
        exception_info: &mut ExceptionInfo,
    ) -> (r: Result<BlobReader, ()>)
        requires
            old(self).blob_state == BlobState::Closed,
        ensures
            *final(exception_info) == *old(exception_info),
            if old(exception_info).is_clear() {
                &&& r matches Ok(b) && b.data@ == image_info.blob@ && b.pos == 0
                &&& *final(self) == (Image { blob_state: BlobState::OpenForRead, ..*old(self) })
            } else {
                r is Err && *final(self) == *old(self)
            },
    {
        exception_info.check()?;
        let data = clone_bytes(&image_info.blob);
        self.blob_state = BlobState::OpenForRead;
        Ok(BlobReader { data, pos: 0 })
    }

    /// Closes a stream that was open for reading.
    pub fn close_blob_read(&mut self, reader: BlobReader)
        requires
            old(self).blob_state == BlobState::OpenForRead,
        ensures
            *final(self) == (Image { blob_state: BlobState::Closed, ..*old(self) }),
    {
        let _ = reader;
        self.blob_state = BlobState::Closed;
    }

    /// Opens the attached stream for writing.  The bytes gathered in the
    /// returned cursor become the image's stream when it is closed.
    pub fn open_blob_write(
        &mut self,
        image_info: &ImageInfo,
        mode: BlobMode,
        exception_info: &mut ExceptionInfo,
    ) -> (r: Result<BlobWriter, ()>)
        requires
            old(self).blob_state == BlobState::Closed,
        ensures
            *final(exception_info) == *old(exception_info),
            if old(exception_info).is_clear() {
                &&& r matches Ok(b) && b.data@ == Seq::<u8>::empty()
                &&& *final(self) == (Image { blob_state: BlobState::OpenForWrite, ..*old(self) })
            } else {
                r is Err && *final(self) == *old(self)
            },
    {
        let _ = image_info;
        exception_info.check()?;
        self.blob_state = BlobState::OpenForWrite;
        Ok(BlobWriter::new())
    }

    /// Closes a stream that was open for writing, committing the
    /// gathered bytes as the image's attached stream.
    pub fn close_blob_write(&mut self, writer: BlobWriter)
        requires
            old(self).blob_state == BlobState::OpenForWrite,
        ensures
            *final(self) == (Image {
                blob: final(self).blob,
                blob_state: BlobState::Closed,
                ..*old(self)
            }),
            final(self).blob@ == writer.data@,
    {
        self.blob = writer.data;
        self.blob_state = BlobState::Closed;
    }

    /// Derives a pixel that conforms to this image's channel model from a
    /// source pixel.  The model's channel set is fixed, so conformance
    /// keeps the channel values.
    pub fn conform_pixel_info(
        &mut self,
        source: &PixelInfo,
        exception_info: &mut ExceptionInfo,
    ) -> (r: Result<PixelInfo, ()>)
        ensures
            *final(self) == *old(self),
            *final(exception_info) == *old(exception_info),
            if old(exception_info).is_clear() {
                r matches Ok(p) && p == *source
            } else {
                r is Err
            },
    {
        exception_info.check()?;
        Ok(*source)
    }

    /// Resizes the canvas to `cols` by `rows` pixels, zero-filling the
    /// buffer.  A request whose sample count does not fit in a machine
    /// word is refused with a resource-limit failure.
    pub fn set_extent(
        &mut self,
        cols: usize,
        rows: usize,
        exception_info: &mut ExceptionInfo,
    ) -> (r: Result<(), ()>)
        ensures
            if cols * rows * CHANNELS > usize::MAX {
                &&& r is Err
                &&& *final(self) == *old(self)
                &&& *final(exception_info) == thrown(
                    *old(exception_info),
                    Exception::ResourceLimitError,
                    ExceptionTag::MemoryAllocationFailed,
                    "set_extent",
                )
            } else {
                &&& *final(exception_info) == *old(exception_info)
                &&& r is Ok <==> old(exception_info).is_clear()
                &&& if old(exception_info).is_clear() {
                    &&& *final(self) == (Image {
                        columns: cols,
                        rows,
                        pixels: final(self).pixels,
                        ..*old(self)
                    })
                    &&& final(self).pixels@ == Seq::new(
                        (cols * rows * CHANNELS) as nat,
                        |i: int| Quantum(0),
                    )
                } else {
                    *final(self) == *old(self)
                }
            },
    {
        let area = match cols.checked_mul(rows) {
            Some(a) => a,
            None => {
                proof {
                    assert(cols * rows * CHANNELS > usize::MAX) by (nonlinear_arith)
                        requires
                            cols * rows > usize::MAX,
                    ;
                }
                let _ = exception_info.throw(
                    Exception::ResourceLimitError,
                    ExceptionTag::MemoryAllocationFailed,
                    "set_extent",
                );
                return Err(());
            },
        };
        let length = match area.checked_mul(CHANNELS) {
            Some(l) => l,
            None => {
                let _ = exception_info.throw(
                    Exception::ResourceLimitError,
                    ExceptionTag::MemoryAllocationFailed,
                    "set_extent",
                );
                return Err(());
            },
        };
        exception_info.check()?;
        let mut pixels: Vec<Quantum> = Vec::new();
        let mut i: usize = 0;
        while i < length
            invariant
                i <= length,
                pixels@.len() == i,
                forall|j: int| 0 <= j < i ==> pixels@[j] == Quantum(0),
            decreases length - i,
        {
            pixels.push(Quantum(0));
            i = i + 1;
        }
        self.columns = cols;
        self.rows = rows;
        self.pixels = pixels;
        proof {
            assert(self.pixels@ =~= Seq::new((cols * rows * CHANNELS) as nat, |i: int| Quantum(0)));
        }
        Ok(())
    }

    /// Allocates an `n_colors`-entry palette filled with an opaque gray
    /// ramp.  Zero entries or more than the host's palette limit are
    /// refused with a resource-limit failure.
    pub fn acquire_colormap(
        &mut self,
        n_colors: usize,
        exception_info: &mut ExceptionInfo,
    ) -> (r: Result<(), ()>)
        ensures
            if n_colors == 0 || n_colors > MAX_COLORMAP_SIZE {
                &&& r is Err
                &&& *final(self) == *old(self)
                &&& *final(exception_info) == thrown(
                    *old(exception_info),
                    Exception::ResourceLimitError,
                    ExceptionTag::MemoryAllocationFailed,
                    "acquire_colormap",
                )
            } else {
                &&& *final(exception_info) == *old(exception_info)
                &&& r is Ok <==> old(exception_info).is_clear()
                &&& if old(exception_info).is_clear() {
                    &&& *final(self) == (Image { colormap: final(self).colormap, ..*old(self) })
                    &&& final(self).colormap@ == colormap_ramp(n_colors as nat)
                } else {
                    *final(self) == *old(self)
                }
            },
    {
        if n_colors == 0 || n_colors > MAX_COLORMAP_SIZE {
            let _ = exception_info.throw(
                Exception::ResourceLimitError,
                ExceptionTag::MemoryAllocationFailed,
                "acquire_colormap",
            );
            return Err(());
        }
        exception_info.check()?;
        let divisor: u64 = if n_colors <= 1 {
            1
        } else {
            (n_colors - 1) as u64
        };
        let mut colormap: Vec<PixelInfo> = Vec::new();
        let mut i: usize = 0;
        while i < n_colors
            invariant
                i <= n_colors,
                n_colors <= MAX_COLORMAP_SIZE,
                divisor == if n_colors <= 1 { 1int } else { n_colors - 1 },
                colormap@.len() == i,
                forall|j: int| 0 <= j < i ==> colormap@[j] == colormap_ramp(n_colors as nat)[j],
            decreases n_colors - i,
        {
            proof {
                assert((i as int * QUANTUM_RANGE as int) / (divisor as int) <= QUANTUM_RANGE as int)
                    by (nonlinear_arith)
                    requires
                        divisor >= 1,
                        i <= divisor,
                ;
            }
            let g = ((i as u64 * QUANTUM_RANGE as u64) / divisor) as u16;
            let entry = PixelInfo {
                red: Quantum(g),
                green: Quantum(g),
                blue: Quantum(g),
                alpha: Quantum(OPAQUE_ALPHA),
            };
            colormap.push(entry);
            proof {
                assert(g == gray_level(i as nat, n_colors as nat));
            }
            i = i + 1;
        }
        self.colormap = colormap;
        proof {
            assert(self.colormap@ =~= colormap_ramp(n_colors as nat));
        }
        Ok(())
    }
}

/// Clones a byte vector; element-wise the clone is the same sequence.
fn clone_bytes(v: &Vec<u8>) -> (r: Vec<u8>)
    ensures
        r@ == v@,
{
    let r = v.clone();
    proof {
        assert(r@ =~= v@);
    }
    r
}

// ---------------------------------------------------------------------
// Whole-buffer pixel operations.
// ---------------------------------------------------------------------

/// The luminance of a pixel with the given colour channels, on the same
/// scale as the channels themselves (Rec. 709 weights in parts per
/// million).
pub open spec fn luma_of(r: u16, g: u16, b: u16) -> int {
    (212656 * r + 715158 * g + 72186 * b) / 1000000
}

/// Whether a pixel counts as foreground when thresholding to bilevel:
/// its luminance is at least half the channel range.
pub open spec fn is_foreground(r: u16, g: u16, b: u16) -> bool {
    2 * luma_of(r, g, b) > QUANTUM_RANGE
}

/// Whether pixel `p` of a flat buffer counts as foreground.
pub open spec fn pixel_is_foreground(pixels: Seq<Quantum>, p: int) -> bool {
    is_foreground(
        pixels[p * CHANNELS + RED_CHANNEL].0,
        pixels[p * CHANNELS + GREEN_CHANNEL].0,
        pixels[p * CHANNELS + BLUE_CHANNEL].0,
    )
}

/// The buffer with every pixel's colour and alpha channels replaced by
/// the background colour; palette-index channels are untouched.
pub open spec fn background_filled(pixels: Seq<Quantum>, bg: PixelInfo) -> Seq<Quantum> {
    Seq::new(
        pixels.len(),
        |i: int|
            if i % (CHANNELS as int) == INDEX_CHANNEL as int {
                pixels[i]
            } else {
                Quantum(bg.channel((i % (CHANNELS as int)) as nat))
            },
    )
}

/// The buffer thresholded to bilevel: each pixel's colour channels
/// become all-white or all-black by its luminance; alpha and index
/// channels are untouched.
pub open spec fn bilevel_of(pixels: Seq<Quantum>) -> Seq<Quantum> {
    Seq::new(
        pixels.len(),
        |i: int|
            {
                let c = i % (CHANNELS as int);
                if c == RED_CHANNEL as int || c == GREEN_CHANNEL as int || c == BLUE_CHANNEL as int {
                    Quantum(
                        if pixel_is_foreground(pixels, i / (CHANNELS as int)) {
                            QUANTUM_RANGE
                        } else {
                            0
                        },
                    )
                } else {
                    pixels[i]
                }
            },
    )
}

/// The buffer with every pixel's colour and alpha channels looked up
/// from the palette by its index channel; an index past the palette is
/// clamped to entry zero.  An empty palette leaves the buffer alone.
pub open spec fn colormap_synced(pixels: Seq<Quantum>, cmap: Seq<PixelInfo>) -> Seq<Quantum> {
    if cmap.len() == 0 {
        pixels
    } else {
        Seq::new(
            pixels.len(),
            |i: int|
                {
                    let c = i % (CHANNELS as int);
                    if c == INDEX_CHANNEL as int {
                        pixels[i]
                    } else {
                        let idx =
                            pixels[(i / (CHANNELS as int)) * (CHANNELS as int)
                            + INDEX_CHANNEL as int].0 as int;
                        let e = if idx < cmap.len() {
                            cmap[idx]
                        } else {
                            cmap[0]
                        };
                        Quantum(e.channel(c as nat))
                    }
                },
        )
    }
}

/// The rectangular region of a buffer `img_cols` pixels wide, `w` by `h`
/// pixels starting at `(x, y)`, as its own row-major buffer.
pub open spec fn region_seq(
    pixels: Seq<Quantum>,
    img_cols: nat,
    x: nat,
    y: nat,
    w: nat,
    h: nat,
) -> Seq<Quantum> {
    Seq::new(
        (w * h * CHANNELS) as nat,
        |k: int|
            {
                let dy = k / ((w * CHANNELS) as int);
                let off = k % ((w * CHANNELS) as int);
                pixels[((y + dy) * img_cols + x) * CHANNELS + off]
            },
    )
}

/// The buffer with the rectangular region `w` by `h` at `(x, y)`
/// replaced by the contents of `q` (a region buffer as produced by
/// [`region_seq`]); everything outside the region is untouched.
pub open spec fn region_write(
    pixels: Seq<Quantum>,
    img_cols: nat,
    x: nat,
    y: nat,
    w: nat,
    h: nat,
    q: Seq<Quantum>,
) -> Seq<Quantum> {
    Seq::new(
        pixels.len(),
        |i: int|
            {
                let row = i / ((img_cols * CHANNELS) as int);
                let off = i % ((img_cols * CHANNELS) as int);
                if y <= row < y + h && (x * CHANNELS) as int <= off < ((x + w) * CHANNELS) as int {
                    q[(row - y) * ((w * CHANNELS) as int) + (off - (x * CHANNELS) as int)]
                } else {
                    pixels[i]
                }
            },
    )
}

/// A flat index splits into its pixel number and channel offset.
proof fn lemma_slot_decompose(p: nat, c: nat)
    requires
        c < CHANNELS,
    ensures
        (p * CHANNELS + c) as int / (CHANNELS as int) == p,
        (p * CHANNELS + c) as int % (CHANNELS as int) == c,
{
    vstd::arithmetic::div_mod::lemma_fundamental_div_mod_converse(
        (p * CHANNELS + c) as int,
        CHANNELS as int,
        p as int,
        c as int,
    );
}

/// A flat index inside a row segment splits into its image row and its
/// offset within that row.
proof fn lemma_row_decompose(img_cols: nat, row: nat, off: nat)
    requires
        img_cols > 0,
        off < img_cols * CHANNELS,
    ensures
        (row * (img_cols * CHANNELS) + off) as int / ((img_cols * CHANNELS) as int) == row,
        (row * (img_cols * CHANNELS) + off) as int % ((img_cols * CHANNELS) as int) == off,
{
    assert(img_cols * CHANNELS > 0) by (nonlinear_arith)
        requires
            img_cols > 0,
    ;
    vstd::arithmetic::div_mod::lemma_fundamental_div_mod_converse(
        (row * (img_cols * CHANNELS) + off) as int,
        (img_cols * CHANNELS) as int,
        row as int,
        off as int,
    );
}

/// The value of one channel of a bulk-fill pixel.
fn channel_value(p: &PixelInfo, c: usize) -> (r: u16)
    ensures
        r == p.channel(c as nat),
{
    if c == RED_CHANNEL {
        p.red.0
    } else if c == GREEN_CHANNEL {
        p.green.0
    } else if c == BLUE_CHANNEL {
        p.blue.0
    } else if c == ALPHA_CHANNEL {
        p.alpha.0
    } else {
        0
    }
}

/// Computes a pixel's luminance from its colour channels.
fn luma_value(r: u16, g: u16, b: u16) -> (l: u16)
    ensures
        l == luma_of(r, g, b),
{
    let sum: u64 = 212656u64 * (r as u64) + 715158u64 * (g as u64) + 72186u64 * (b as u64);
    let l = sum / 1000000;
    proof {
        assert(l <= QUANTUM_RANGE) by (nonlinear_arith)
            requires
                l == sum / 1000000,
                sum <= 1000000 * (QUANTUM_RANGE as u64),
        ;
    }
    l as u16
}

impl Image {
    /// Fills every pixel's colour and alpha channels with the image's
    /// nominal background colour.
    pub fn set_pixels_to_background_color(
        &mut self,
        exception_info: &mut ExceptionInfo,
    ) -> (r: Result<(), ()>)
        ensures
            *final(exception_info) == *old(exception_info),
            r is Ok <==> old(exception_info).is_clear(),
            if old(exception_info).is_clear() {
                &&& *final(self) == (Image { pixels: final(self).pixels, ..*old(self) })
                &&& final(self).pixels@ == background_filled(
                    old(self).pixels@,
                    old(self).background_color,
                )
            } else {
                *final(self) == *old(self)
            },
    {
        exception_info.check()?;
        let bg = self.background_color;
        let ghost target = background_filled(self.pixels@, self.background_color);
        let length = self.pixels.len();
        let mut i: usize = 0;
        while i < length
            invariant
                i <= length,
                self.pixels@.len() == length,
                bg == old(self).background_color,
                target == background_filled(old(self).pixels@, old(self).background_color),
                target.len() == length,
                *self == (Image { pixels: self.pixels, ..*old(self) }),
                forall|j: int| 0 <= j < i ==> self.pixels@[j] == target[j],
                forall|j: int| i <= j < length ==> self.pixels@[j] == old(self).pixels@[j],
            decreases length - i,
        {
            let c = i % CHANNELS;
            if c != INDEX_CHANNEL {
                let v = channel_value(&bg, c);
                self.pixels[i] = Quantum(v);
            }
            i = i + 1;
        }
        proof {
            assert(self.pixels@ =~= target);
        }
        Ok(())
    }

    /// Converts the image to the given colourspace.  The model keeps its
    /// samples on one scale throughout, so the conversion records the
    /// target space and leaves the samples alone.
    pub fn transform_colorspace(
        &mut self,
        colorspace: Colorspace,
        exception_info: &mut ExceptionInfo,
    ) -> (r: Result<(), ()>)
        ensures
            *final(exception_info) == *old(exception_info),
            r is Ok <==> old(exception_info).is_clear(),
            if old(exception_info).is_clear() {
                *final(self) == (Image { colorspace, ..*old(self) })
            } else {
                *final(self) == *old(self)
            },
    {
        exception_info.check()?;
        self.colorspace = colorspace;
        Ok(())
    }

    /// Reduces the image to the given storage category.  Reducing to
    /// bilevel thresholds every pixel's colour channels to all-white or
    /// all-black by luminance.
    pub fn set_type(
        &mut self,
        image_type: ImageType,
        exception_info: &mut ExceptionInfo,
    ) -> (r: Result<(), ()>)
        requires
            old(self).pixels@.len() as int % (CHANNELS as int) == 0,
        ensures
            *final(exception_info) == *old(exception_info),
            r is Ok <==> old(exception_info).is_clear(),
            if old(exception_info).is_clear() {
                match image_type {
                    ImageType::Bilevel => {
                        &&& *final(self) == (Image {
                            image_type,
                            pixels: final(self).pixels,
                            ..*old(self)
                        })
                        &&& final(self).pixels@ == bilevel_of(old(self).pixels@)
                    },
                    ImageType::Undefined => *final(self) == (Image { image_type, ..*old(self) }),
                }
            } else {
                *final(self) == *old(self)
            },
    {
        exception_info.check()?;
        match image_type {
            ImageType::Undefined => {
                self.image_type = image_type;
            },
            ImageType::Bilevel => {
                let ghost orig = self.pixels@;
                let ghost target = bilevel_of(self.pixels@);
                let length = self.pixels.len();
                let count = length / CHANNELS;
                proof {
                    assert(count * CHANNELS == length) by (nonlinear_arith)
                        requires
                            length as int % (CHANNELS as int) == 0,
                            count == length as int / (CHANNELS as int),
                            CHANNELS == 5,
                    ;
                }
                let mut p: usize = 0;
                while p < count
                    invariant
                        p <= count,
                        count * CHANNELS == length,
                        self.pixels@.len() == length,
                        target == bilevel_of(orig),
                        target.len() == length,
                        *self == (Image { pixels: self.pixels, ..*old(self) }),
                        forall|j: int| 0 <= j < p * CHANNELS ==> self.pixels@[j] == target[j],
                        forall|j: int|
                            p * CHANNELS <= j < length ==> self.pixels@[j] == orig[j],
                    decreases count - p,
                {
                    proof {
                        assert(p * CHANNELS + CHANNELS <= length
                            && p * CHANNELS + CHANNELS == (p + 1) * CHANNELS) by (nonlinear_arith)
                            requires
                                p < count,
                                count * CHANNELS == length,
                                CHANNELS == 5,
                        ;
                    }
                    let base = p * CHANNELS;
                    let r = self.pixels[base + RED_CHANNEL].0;
                    let g = self.pixels[base + GREEN_CHANNEL].0;
                    let b = self.pixels[base + BLUE_CHANNEL].0;
                    let l = luma_value(r, g, b);
                    let v = if 2 * (l as u32) > QUANTUM_RANGE as u32 {
                        QUANTUM_RANGE
                    } else {
                        0
                    };
                    proof {
                        assert(pixel_is_foreground(orig, p as int) <==> 2 * (l as int)
                            > QUANTUM_RANGE);
                    }
                    self.pixels[base + RED_CHANNEL] = Quantum(v);
                    self.pixels[base + GREEN_CHANNEL] = Quantum(v);
                    self.pixels[base + BLUE_CHANNEL] = Quantum(v);
                    proof {
                        lemma_slot_decompose(p as nat, RED_CHANNEL as nat);
                        lemma_slot_decompose(p as nat, GREEN_CHANNEL as nat);
                        lemma_slot_decompose(p as nat, BLUE_CHANNEL as nat);
                        lemma_slot_decompose(p as nat, ALPHA_CHANNEL as nat);
                        lemma_slot_decompose(p as nat, INDEX_CHANNEL as nat);
                        assert forall|j: int|
                            p * CHANNELS <= j < p * CHANNELS + CHANNELS implies self.pixels@[j]
                            == target[j] by {
                            let c = j - p * CHANNELS;
                            lemma_slot_decompose(p as nat, c as nat);
                        }
                    }
                    p = p + 1;
                }
                self.image_type = image_type;
                proof {
                    assert(self.pixels@ =~= target);
                }
            },
        }
        Ok(())
    }

    /// Commits the palette to the raster: every pixel's colour and alpha
    /// channels are looked up from the palette by the pixel's index
    /// channel.  With no palette allocated the raster is left alone.
    pub fn sync(&mut self, exception_info: &mut ExceptionInfo) -> (r: Result<(), ()>)
        requires
            old(self).pixels@.len() as int % (CHANNELS as int) == 0,
        ensures
            *final(exception_info) == *old(exception_info),
            r is Ok <==> old(exception_info).is_clear(),
            if old(exception_info).is_clear() {
                &&& *final(self) == (Image { pixels: final(self).pixels, ..*old(self) })
                &&& final(self).pixels@ == colormap_synced(old(self).pixels@, old(self).colormap@)
            } else {
                *final(self) == *old(self)
            },
    {
        exception_info.check()?;
        if self.colormap.len() == 0 {
            return Ok(());
        }
        let ghost orig = self.pixels@;
        let ghost cmap = self.colormap@;
        let ghost target = colormap_synced(self.pixels@, self.colormap@);
        let length = self.pixels.len();
        let count = length / CHANNELS;
        proof {
            assert(count * CHANNELS == length) by (nonlinear_arith)
                requires
                    length as int % (CHANNELS as int) == 0,
                    count == length as int / (CHANNELS as int),
                    CHANNELS == 5,
            ;
        }
        let mut p: usize = 0;
        while p < count
            invariant
                p <= count,
                count * CHANNELS == length,
                self.pixels@.len() == length,
                self.colormap@ == cmap,
                cmap.len() > 0,
                target == colormap_synced(orig, cmap),
                target.len() == length,
                *self == (Image { pixels: self.pixels, ..*old(self) }),
                forall|j: int| 0 <= j < p * CHANNELS ==> self.pixels@[j] == target[j],
                forall|j: int| p * CHANNELS <= j < length ==> self.pixels@[j] == orig[j],
            decreases count - p,
        {
            proof {
                assert(p * CHANNELS + CHANNELS <= length && p * CHANNELS + CHANNELS == (p + 1)
                    * CHANNELS) by (nonlinear_arith)
                    requires
                        p < count,
                        count * CHANNELS == length,
                        CHANNELS == 5,
                ;
            }
            let base = p * CHANNELS;
            let idx = self.pixels[base + INDEX_CHANNEL].0 as usize;
            let clamped = if idx < self.colormap.len() {
                idx
            } else {
                0
            };
            let entry = self.colormap[clamped];
            self.pixels[base + RED_CHANNEL] = entry.red;
            self.pixels[base + GREEN_CHANNEL] = entry.green;
            self.pixels[base + BLUE_CHANNEL] = entry.blue;
            self.pixels[base + ALPHA_CHANNEL] = entry.alpha;
            proof {
                assert forall|j: int|
                    p * CHANNELS <= j < p * CHANNELS + CHANNELS implies self.pixels@[j]
                    == target[j] by {
                    let c = j - p * CHANNELS;
                    lemma_slot_decompose(p as nat, c as nat);
                    lemma_slot_decompose(p as nat, INDEX_CHANNEL as nat);
                }
            }
            p = p + 1;
        }
        proof {
            assert(self.pixels@ =~= target);
        }
        Ok(())
    }
}

// ---------------------------------------------------------------------
// Rectangular pixel-buffer views.
// ---------------------------------------------------------------------

/// A transient writable view over a rectangular region of an image's
/// pixel buffer.  Writes land in the view; they reach the image only
/// through an explicit sync.
pub struct AuthenticPixels {
    pub quantums: Vec<Quantum>,
    pub x: usize,
    pub y: usize,
    pub columns: usize,
    pub rows: usize,
}

/// A transient read-only view over a rectangular region of an image's
/// pixel buffer.
pub struct VirtualPixels {
    pub quantums: Vec<Quantum>,
    pub columns: usize,
    pub rows: usize,
}

impl AuthenticPixels {
    /// The view holds one sample per channel of every pixel in its
    /// region.
    pub open spec fn wf(&self) -> bool {
        self.quantums@.len() == self.columns * self.rows * CHANNELS
    }

    /// Writes the palette-index channel of the view's pixel `idx`,
    /// leaving its other channels alone.
    pub fn set_pixel_index(&mut self, idx: usize, index: Quantum)
        requires
            old(self).wf(),
            idx < old(self).columns * old(self).rows,
        ensures
            final(self).wf(),
            *final(self) == (AuthenticPixels { quantums: final(self).quantums, ..*old(self) }),
            final(self).quantums@ == old(self).quantums@.update(
                idx * CHANNELS + INDEX_CHANNEL,
                index,
            ),
    {
        let len = self.quantums.len();
        proof {
            let ghost np = old(self).columns * old(self).rows;
            assert(idx * CHANNELS + CHANNELS <= np * CHANNELS) by (nonlinear_arith)
                requires
                    idx < np,
                    CHANNELS == 5,
            ;
            assert(len == np * CHANNELS);
        }
        let pos = self.num_channels() * idx;
        self.quantums[pos + INDEX_CHANNEL] = index;
    }

    /// Writes all colour and alpha channels of the view's pixel `idx`
    /// from a bulk-fill pixel, leaving the index channel alone.
    pub fn set_pixel_from_info(&mut self, idx: usize, pixel: &PixelInfo)
        requires
            old(self).wf(),
            idx < old(self).columns * old(self).rows,
        ensures
            final(self).wf(),
            *final(self) == (AuthenticPixels { quantums: final(self).quantums, ..*old(self) }),
            final(self).quantums@ == old(self).quantums@.update(
                idx * CHANNELS + RED_CHANNEL,
                pixel.red,
            ).update(idx * CHANNELS + GREEN_CHANNEL, pixel.green).update(
                idx * CHANNELS + BLUE_CHANNEL,
                pixel.blue,
            ).update(idx * CHANNELS + ALPHA_CHANNEL, pixel.alpha),
    {
        let len = self.quantums.len();
        proof {
            let ghost np = old(self).columns * old(self).rows;
            assert(idx * CHANNELS + CHANNELS <= np * CHANNELS) by (nonlinear_arith)
                requires
                    idx < np,
                    CHANNELS == 5,
            ;
            assert(len == np * CHANNELS);
        }
        let pos = self.num_channels() * idx;
        self.quantums[pos + RED_CHANNEL] = pixel.red;
        self.quantums[pos + GREEN_CHANNEL] = pixel.green;
        self.quantums[pos + BLUE_CHANNEL] = pixel.blue;
        self.quantums[pos + ALPHA_CHANNEL] = pixel.alpha;
    }

    /// Channel samples each pixel occupies in the view.
    pub fn num_channels(&self) -> (r: usize)
        ensures
            r == CHANNELS,
    {
        CHANNELS
    }
}

impl VirtualPixels {
    /// The view holds one sample per channel of every pixel in its
    /// region.
    pub open spec fn wf(&self) -> bool {
        self.quantums@.len() == self.columns * self.rows * CHANNELS
    }

    /// The luminance of the view's pixel `idx`, computed from its colour
    /// channels.
    pub fn get_pixel_luma(&self, idx: usize) -> (l: u16)
        requires
            self.wf(),
            idx < self.columns * self.rows,
        ensures
            l == luma_of(
                self.quantums@[idx * CHANNELS + RED_CHANNEL as int].0,
                self.quantums@[idx * CHANNELS + GREEN_CHANNEL as int].0,
                self.quantums@[idx * CHANNELS + BLUE_CHANNEL as int].0,
            ),
    {
        let len = self.quantums.len();
        proof {
            let ghost np = self.columns * self.rows;
            assert(idx * CHANNELS + CHANNELS <= np * CHANNELS) by (nonlinear_arith)
                requires
                    idx < np,
                    CHANNELS == 5,
            ;
            assert(len == np * CHANNELS);
        }
        let pos = CHANNELS * idx;
        luma_value(
            self.quantums[pos + RED_CHANNEL].0,
            self.quantums[pos + GREEN_CHANNEL].0,
            self.quantums[pos + BLUE_CHANNEL].0,
        )
    }
}

impl Image {
    /// Copies the rectangular region `w` by `h` at `(x, y)` out of the
    /// pixel buffer, row by row.
    fn copy_region(&self, x: usize, y: usize, w: usize, h: usize) -> (out: Vec<Quantum>)
        requires
            self.extent_set(),
            x + w <= self.columns,
            y + h <= self.rows,
        ensures
            out@ == region_seq(self.pixels@, self.columns as nat, x as nat, y as nat, w as nat, h as nat),
    {
        let ghost target = region_seq(
            self.pixels@,
            self.columns as nat,
            x as nat,
            y as nat,
            w as nat,
            h as nat,
        );
        if w == 0 || h == 0 {
            let out: Vec<Quantum> = Vec::new();
            proof {
                assert(w * h * CHANNELS == 0) by (nonlinear_arith)
                    requires
                        w == 0 || h == 0,
                ;
                assert(out@ =~= target);
            }
            return out;
        }
        let length = self.pixels.len();
        proof {
            assert(w * CHANNELS <= length && w * h * CHANNELS <= length) by (nonlinear_arith)
                requires
                    x + w <= self.columns,
                    y + h <= self.rows,
                    w >= 1,
                    h >= 1,
                    length == self.columns * self.rows * CHANNELS,
                    CHANNELS == 5,
            ;
        }
        let row_len = w * CHANNELS;
        let mut out: Vec<Quantum> = Vec::new();
        let mut dy: usize = 0;
        while dy < h
            invariant
                dy <= h,
                x + w <= self.columns,
                y + h <= self.rows,
                self.extent_set(),
                length == self.pixels@.len(),
                row_len == w * CHANNELS,
                target == region_seq(
                    self.pixels@,
                    self.columns as nat,
                    x as nat,
                    y as nat,
                    w as nat,
                    h as nat,
                ),
                target.len() == w * h * CHANNELS,
                out@.len() == dy * row_len,
                forall|k: int| 0 <= k < out@.len() ==> out@[k] == target[k],
            decreases h - dy,
        {
            proof {
                assert((y + dy) * self.columns <= length && (y + dy) * self.columns + x <= length
                    && ((y + dy) * self.columns + x) * CHANNELS + row_len <= length
                    && (dy + 1) * row_len == dy * row_len + row_len
                    && dy * row_len + row_len <= w * h * CHANNELS) by (nonlinear_arith)
                    requires
                        x + w <= self.columns,
                        dy < h,
                        y + h <= self.rows,
                        row_len == w * CHANNELS,
                        length == self.columns * self.rows * CHANNELS,
                        CHANNELS == 5,
                ;
            }
            let base = ((y + dy) * self.columns + x) * CHANNELS;
            let mut k2: usize = 0;
            while k2 < row_len
                invariant
                    k2 <= row_len,
                    dy < h,
                    x + w <= self.columns,
                    y + h <= self.rows,
                    self.extent_set(),
                    length == self.pixels@.len(),
                    row_len == w * CHANNELS,
                    base == ((y + dy) * self.columns + x) * CHANNELS,
                    base + row_len <= self.pixels@.len(),
                    target == region_seq(
                        self.pixels@,
                        self.columns as nat,
                        x as nat,
                        y as nat,
                        w as nat,
                        h as nat,
                    ),
                    target.len() == w * h * CHANNELS,
                    dy * row_len + row_len <= target.len(),
                    out@.len() == dy * row_len + k2,
                    forall|k: int| 0 <= k < out@.len() ==> out@[k] == target[k],
                decreases row_len - k2,
            {
                out.push(self.pixels[base + k2]);
                proof {
                    let k = dy * row_len + k2;
                    vstd::arithmetic::div_mod::lemma_fundamental_div_mod_converse(
                        k as int,
                        row_len as int,
                        dy as int,
                        k2 as int,
                    );
                    assert(target[k as int] == self.pixels@[base + k2]);
                }
                k2 = k2 + 1;
            }
            dy = dy + 1;
        }
        proof {
            assert(out@.len() == h * row_len);
            assert(h * row_len == w * h * CHANNELS) by (nonlinear_arith)
                requires
                    row_len == w * CHANNELS,
            ;
            assert(out@ =~= target);
        }
        out
    }

    /// Requests a writable view of the rectangular region `columns` by
    /// `rows` at `(x, y)`.  The view starts as a snapshot of the region
    /// and must be committed with a sync.  The region must lie within
    /// the canvas.
    pub fn queue_authentic_pixels(
        &self,
        x: usize,
        y: usize,
        columns: usize,
        rows: usize,
        exception_info: &mut ExceptionInfo,
    ) -> (r: Result<AuthenticPixels, ()>)
        requires
            self.extent_set(),
            x + columns <= self.columns,
            y + rows <= self.rows,
        ensures
            *final(exception_info) == *old(exception_info),
            if old(exception_info).is_clear() {
                r matches Ok(v) && v == (AuthenticPixels {
                    quantums: v.quantums,
                    x,
                    y,
                    columns,
                    rows,
                }) && v.quantums@ == region_seq(
                    self.pixels@,
                    self.columns as nat,
                    x as nat,
                    y as nat,
                    columns as nat,
                    rows as nat,
                ) && v.wf()
            } else {
                r is Err
            },
    {
        exception_info.check()?;
        let quantums = self.copy_region(x, y, columns, rows);
        Ok(AuthenticPixels { quantums, x, y, columns, rows })
    }

    /// Requests a read-only view of the rectangular region `columns` by
    /// `rows` at `(x, y)`.  The region must lie within the canvas.
    pub fn get_virtual_pixels(
        &self,
        x: usize,
        y: usize,
        columns: usize,
        rows: usize,
        exception_info: &mut ExceptionInfo,
    ) -> (r: Result<VirtualPixels, ()>)
        requires
            self.extent_set(),
            x + columns <= self.columns,
            y + rows <= self.rows,
        ensures
            *final(exception_info) == *old(exception_info),
            if old(exception_info).is_clear() {
                r matches Ok(v) && v == (VirtualPixels { quantums: v.quantums, columns, rows })
                    && v.quantums@ == region_seq(
                    self.pixels@,
                    self.columns as nat,
                    x as nat,
                    y as nat,
                    columns as nat,
                    rows as nat,
                ) && v.wf()
            } else {
                r is Err
            },
    {
        exception_info.check()?;
        let quantums = self.copy_region(x, y, columns, rows);
        Ok(VirtualPixels { quantums, columns, rows })
    }

    /// Commits a writable view back to the pixel buffer: the view's
    /// region is overwritten with the view's samples, everything outside
    /// it is untouched, and the view is invalidated.
    pub fn sync_authentic_pixels(
        &mut self,
        view: AuthenticPixels,
        exception_info: &mut ExceptionInfo,
    ) -> (r: Result<(), ()>)
        requires
            old(self).extent_set(),
            view.wf(),
            view.x + view.columns <= old(self).columns,
            view.y + view.rows <= old(self).rows,
        ensures
            *final(exception_info) == *old(exception_info),
            r is Ok <==> old(exception_info).is_clear(),
            if old(exception_info).is_clear() {
                &&& *final(self) == (Image { pixels: final(self).pixels, ..*old(self) })
                &&& final(self).pixels@ == region_write(
                    old(self).pixels@,
                    old(self).columns as nat,
                    view.x as nat,
                    view.y as nat,
                    view.columns as nat,
                    view.rows as nat,
                    view.quantums@,
                )
            } else {
                *final(self) == *old(self)
            },
    {
        exception_info.check()?;
        let x = view.x;
        let y = view.y;
        let w = view.columns;
        let h = view.rows;
        let ghost orig = self.pixels@;
        let ghost target = region_write(
            self.pixels@,
            self.columns as nat,
            x as nat,
            y as nat,
            w as nat,
            h as nat,
            view.quantums@,
        );
        if w == 0 || h == 0 {
            proof {
                assert forall|i: int| 0 <= i < orig.len() implies target[i] == orig[i] by {}
                assert(self.pixels@ =~= target);
            }
            return Ok(());
        }
        let length = self.pixels.len();
        let vlen = view.quantums.len();
        proof {
            assert(w * CHANNELS <= length) by (nonlinear_arith)
                requires
                    x + w <= self.columns,
                    y + h <= self.rows,
                    w >= 1,
                    h >= 1,
                    length == self.columns * self.rows * CHANNELS,
                    CHANNELS == 5,
            ;
        }
        let row_len = w * CHANNELS;
        let mut dy: usize = 0;
        while dy < h
            invariant
                dy <= h,
                x + w <= old(self).columns,
                y + h <= old(self).rows,
                self.extent_set(),
                self.pixels@.len() == length,
                row_len == w * CHANNELS,
                view.quantums@.len() == w * h * CHANNELS,
                view.quantums@.len() == vlen,
                *self == (Image { pixels: self.pixels, ..*old(self) }),
                self.pixels@.len() == orig.len(),
                target == region_write(
                    orig,
                    old(self).columns as nat,
                    x as nat,
                    y as nat,
                    w as nat,
                    h as nat,
                    view.quantums@,
                ),
                target.len() == orig.len(),
                forall|i: int|
                    0 <= i < orig.len() && row_of(i, old(self).columns as nat) < y + dy
                        ==> self.pixels@[i] == target[i],
                forall|i: int|
                    0 <= i < orig.len() && row_of(i, old(self).columns as nat) >= y + dy
                        ==> self.pixels@[i] == orig[i],
            decreases h - dy,
        {
            proof {
                assert((y + dy) * self.columns <= length && (y + dy) * self.columns + x <= length
                    && ((y + dy) * self.columns + x) * CHANNELS + row_len <= length
                    && dy * row_len + row_len <= vlen) by (nonlinear_arith)
                    requires
                        x + w <= self.columns,
                        dy < h,
                        y + h <= self.rows,
                        row_len == w * CHANNELS,
                        length == self.columns * self.rows * CHANNELS,
                        vlen == w * h * CHANNELS,
                        CHANNELS == 5,
                ;
            }
            let base = ((y + dy) * self.columns + x) * CHANNELS;
            let src_base = dy * row_len;
            let mut k2: usize = 0;
            while k2 < row_len
                invariant
                    k2 <= row_len,
                    dy < h,
                    x + w <= old(self).columns,
                    y + h <= old(self).rows,
                    self.extent_set(),
                    self.pixels@.len() == length,
                    row_len == w * CHANNELS,
                    view.quantums@.len() == w * h * CHANNELS,
                    view.quantums@.len() == vlen,
                    base == ((y + dy) * old(self).columns + x) * CHANNELS,
                    base + row_len <= self.pixels@.len(),
                    src_base == dy * row_len,
                    src_base + row_len <= view.quantums@.len(),
                    *self == (Image { pixels: self.pixels, ..*old(self) }),
                    self.pixels@.len() == orig.len(),
                    target == region_write(
                        orig,
                        old(self).columns as nat,
                        x as nat,
                        y as nat,
                        w as nat,
                        h as nat,
                        view.quantums@,
                    ),
                    target.len() == orig.len(),
                    forall|i: int|
                        0 <= i < orig.len() && row_of(i, old(self).columns as nat) < y + dy
                            ==> self.pixels@[i] == target[i],
                    forall|i: int|
                        base <= i < base + k2 ==> self.pixels@[i] == target[i],
                    forall|i: int|
                        0 <= i < orig.len() && row_of(i, old(self).columns as nat) >= y + dy
                            && !(base <= i < base + k2) ==> self.pixels@[i] == orig[i],
                decreases row_len - k2,
            {
                self.pixels[base + k2] = view.quantums[src_base + k2];
                proof {
                    let cols = old(self).columns as nat;
                    let i = (base + k2) as int;
                    assert(base + k2 == (y + dy) * (cols * CHANNELS) + (x * CHANNELS + k2)
                        && x * CHANNELS + k2 < cols * CHANNELS) by (nonlinear_arith)
                        requires
                            base == ((y + dy) * cols + x) * CHANNELS,
                            k2 < row_len,
                            row_len == w * CHANNELS,
                            x + w <= cols,
                            CHANNELS == 5,
                    ;
                    lemma_row_decompose(cols, (y + dy) as nat, (x * CHANNELS + k2) as nat);
                    assert(target[i] == view.quantums@[(dy * (w * CHANNELS) + k2) as int])
                        by (nonlinear_arith)
                        requires
                            target == region_write(orig, cols, x as nat, y as nat, w as nat,
                                h as nat, view.quantums@),
                            target.len() == orig.len(),
                            0 <= i < orig.len(),
                            i / ((cols * CHANNELS) as int) == y + dy,
                            i % ((cols * CHANNELS) as int) == x * CHANNELS + k2,
                            dy < h,
                            k2 < w * CHANNELS,
                            row_len == w * CHANNELS,
                            CHANNELS == 5,
                    ;
                    assert(src_base + k2 == dy * (w * CHANNELS) + k2);
                }
                k2 = k2 + 1;
            }
            proof {
                let cols = old(self).columns as nat;
                assert forall|i: int|
                    0 <= i < orig.len() && row_of(i, cols) >= y + dy + 1 implies self.pixels@[i]
                    == orig[i] by {
                    let rws = old(self).rows as nat;
                    assert(cols > 0) by (nonlinear_arith)
                        requires
                            orig.len() == cols * rws * CHANNELS,
                            orig.len() > 0,
                    ;
                    let d = (cols * CHANNELS) as int;
                    assert(d > 0 && base + row_len <= (y + dy + 1) * d) by (nonlinear_arith)
                        requires
                            cols > 0,
                            base == ((y + dy) * cols + x) * CHANNELS,
                            row_len == w * CHANNELS,
                            x + w <= cols,
                            d == (cols * CHANNELS) as int,
                            CHANNELS == 5,
                    ;
                    vstd::arithmetic::div_mod::lemma_fundamental_div_mod(i, d);
                    assert((y + dy + 1) * d <= (i / d) * d) by (nonlinear_arith)
                        requires
                            d > 0,
                            i / d >= y + dy + 1,
                    ;
                    assert(i / d == row_of(i, cols));
                    assert(i >= d * (i / d));
                    assert(i >= base + row_len);
                    assert(k2 == row_len);
                    assert(!(base <= i < base + k2));
                    assert(self.pixels@[i] == orig[i]);
                }
                assert forall|i: int|
                    0 <= i < orig.len() && row_of(i, cols) < y + dy + 1 implies self.pixels@[i]
                    == target[i] by {
                    if row_of(i, cols) == y + dy {
                        let rws = old(self).rows as nat;
                        assert(cols > 0) by (nonlinear_arith)
                            requires
                                orig.len() == cols * rws * CHANNELS,
                                orig.len() > 0,
                        ;
                        lemma_row_range(i, cols, (y + dy) as nat, x as nat, w as nat,
                            base as nat, k2 as nat);
                        if base <= i < base + row_len {
                        } else {
                            assert(target[i] == orig[i]) by (nonlinear_arith)
                                requires
                                    target == region_write(orig, cols, x as nat, y as nat,
                                        w as nat, h as nat, view.quantums@),
                                    target.len() == orig.len(),
                                    0 <= i < orig.len(),
                                    i / ((cols * CHANNELS) as int) == y + dy,
                                    !((x * CHANNELS) as int <= i % ((cols * CHANNELS) as int)
                                        < ((x + w) * CHANNELS) as int),
                                    CHANNELS == 5,
                            ;
                        }
                    }
                }
            }
            dy = dy + 1;
        }
        proof {
            let cols = old(self).columns as nat;
            assert forall|i: int| 0 <= i < orig.len() implies self.pixels@[i] == target[i] by {
                if row_of(i, cols) >= y + h {
                    assert(target[i] == orig[i]);
                }
            }
            assert(self.pixels@ =~= target);
        }
        Ok(())
    }
}

/// The image row a flat buffer index falls in.
pub open spec fn row_of(i: int, img_cols: nat) -> int {
    i / ((img_cols * CHANNELS) as int)
}

/// Inside one image row, the indices of the written region are exactly
/// the interval starting at that row's region base.
proof fn lemma_row_range(i: int, cols: nat, row: nat, x: nat, w: nat, base: nat, k2: nat)
    requires
        cols > 0,
        i / ((cols * CHANNELS) as int) == row,
        0 <= i,
        base == ((row * cols) + x) * CHANNELS,
        k2 == w * CHANNELS,
        x + w <= cols,
    ensures
        (base <= i < base + w * CHANNELS) <==> ((x * CHANNELS) as int <= i % ((cols
            * CHANNELS) as int) < ((x + w) * CHANNELS) as int),
{
    let d = (cols * CHANNELS) as int;
    assert(d > 0 && base == row * d + x * CHANNELS && x * CHANNELS + w * CHANNELS <= d
        && ((x + w) * CHANNELS) as int == x * CHANNELS + w * CHANNELS) by (nonlinear_arith)
        requires
            cols > 0,
            base == ((row * cols) + x) * CHANNELS,
            x + w <= cols,
            d == (cols * CHANNELS) as int,
            CHANNELS == 5,
    ;
    vstd::arithmetic::div_mod::lemma_fundamental_div_mod(i, d);
}

} // verus!
