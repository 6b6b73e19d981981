//! The Null codec: reading produces a uniform, fully transparent raster
//! of the requested extent (defaulting each zero dimension to one);
//! writing produces no output at all.

use vstd::prelude::*;

use crate::exception::ExceptionInfo;
use crate::registry::{
    without, CoderEntry, CoderFlags, CoderId, FormatRegistry, FormatType, CODER_FLAGS_DEFAULT,
    CODER_FLAG_ADJOIN, IMAGE_CODER_SIGNATURE,
};
use crate::image::{
    region_seq, region_write, BlobMode, BlobState, Colorspace, Image, ImageInfo, ImageType,
    PixelTrait,
};
use crate::{PixelInfo, Quantum};
use crate::{ALPHA_CHANNEL, CHANNELS, INDEX_CHANNEL, TRANSPARENT_ALPHA};

verus! {

/// The raster a Null decode produces for a `cols` by `rows` canvas with
/// background colour `bg`: every pixel carries the background's colour
/// channels, a fully transparent alpha, and a zero palette index.
pub open spec fn null_canvas(cols: nat, rows: nat, bg: PixelInfo) -> Seq<Quantum> {
    Seq::new(
        (cols * rows * CHANNELS) as nat,
        |i: int|
            {
                let c = i % (CHANNELS as int);
                if c == INDEX_CHANNEL as int {
                    Quantum(0)
                } else if c == ALPHA_CHANNEL as int {
                    Quantum(TRANSPARENT_ALPHA)
                } else {
                    Quantum(bg.channel(c as nat))
                }
            },
    )
}

/// The dimension actually used for a requested one: a zero request means
/// a single pixel, independently per dimension.
pub open spec fn defaulted(d: usize) -> usize {
    if d == 0 {
        1usize
    } else {
        d
    }
}

/// Whether a Null decode of this request succeeds: the only failure is
/// a canvas whose sample count does not fit in a machine word.
pub open spec fn null_decode_ok(info: ImageInfo) -> bool {
    defaulted(info.columns) * defaulted(info.rows) * CHANNELS <= usize::MAX
}

/// The image a successful Null decode hands back for this request.
pub open spec fn null_decoded(info: ImageInfo, img: Image) -> bool {
    &&& img.columns == defaulted(info.columns)
    &&& img.rows == defaulted(info.rows)
    &&& img.background_color == info.background_color
    &&& img.alpha_trait == PixelTrait::Blend
    &&& img.colorspace == Colorspace::SRGB
    &&& img.image_type == ImageType::Undefined
    &&& img.ping == info.ping
    &&& img.pixels@ == null_canvas(
        defaulted(info.columns) as nat,
        defaulted(info.rows) as nat,
        info.background_color,
    )
    &&& img.colormap@ == Seq::<PixelInfo>::empty()
    &&& img.blob@ == Seq::<u8>::empty()
    &&& img.blob_state == BlobState::Closed
    &&& img.progress@ == Seq::<(usize, usize)>::empty()
}

/// Decodes a Null request: acquires a fresh image, defaults each zero
/// dimension to one, marks alpha as blending, and fills every pixel with
/// the background colour made fully transparent.  The only failure is a
/// canvas whose sample count does not fit in a machine word.
pub fn read_null_image(
    image_info: &ImageInfo,
    exception_info: &mut ExceptionInfo,
) -> (r: Result<Image, ()>)
    requires
        old(exception_info).is_clear(),
    ensures
        if null_decode_ok(*image_info) {
            r matches Ok(img) && null_decoded(*image_info, img)
                && final(exception_info).is_clear()
        } else {
            r is Err && !final(exception_info).is_clear()
        },
{
    let mut image = image_info.acquire_image(exception_info)?;
    let cols = if image.columns() == 0 {
        1
    } else {
        image.columns()
    };
    let rows = if image.rows() == 0 {
        1
    } else {
        image.rows()
    };
    let background_color = image.background_color();

    let blob = image.open_blob_read(image_info, BlobMode::Binary, exception_info)?;
    image.close_blob_read(blob);
    image.set_alpha_trait(PixelTrait::Blend);
    image.set_extent(cols, rows, exception_info)?;
    let mut background = image.conform_pixel_info(&background_color, exception_info)?;
    background.set_alpha(Quantum(TRANSPARENT_ALPHA));

    let ghost img0 = image;
    let ghost target = null_canvas(cols as nat, rows as nat, image_info.background_color);
    proof {
        assert(target.len() == image.pixels@.len());
    }
    let mut y: usize = 0;
    while y < rows
        invariant
            y <= rows,
            1 <= cols,
            1 <= rows,
            exception_info.is_clear(),
            image == (Image { pixels: image.pixels, ..img0 }),
            img0.columns == cols,
            img0.rows == rows,
            img0.blob_state == BlobState::Closed,
            image.extent_set(),
            image.pixels@.len() == cols * rows * CHANNELS,
            target == null_canvas(cols as nat, rows as nat, image_info.background_color),
            target.len() == image.pixels@.len(),
            background.red == image_info.background_color.red,
            background.green == image_info.background_color.green,
            background.blue == image_info.background_color.blue,
            background.alpha == Quantum(TRANSPARENT_ALPHA),
            forall|i: int|
                0 <= i < target.len() && crate::image::row_of(i, cols as nat) < y
                    ==> image.pixels@[i] == target[i],
            forall|i: int|
                0 <= i < target.len() && crate::image::row_of(i, cols as nat) >= y
                    ==> image.pixels@[i] == Quantum(0),
        decreases rows - y,
    {
        let mut q = image.queue_authentic_pixels(0, y, cols, 1, exception_info)?;
        let ghost q0 = q.quantums@;
        let mut x: usize = 0;
        while x < cols
            invariant
                x <= cols,
                q.wf(),
                q.columns == cols,
                q.rows == 1,
                q.x == 0,
                q.y == y,
                q.quantums@.len() == q0.len(),
                q0.len() == cols * 1 * CHANNELS,
                background.red == image_info.background_color.red,
                background.green == image_info.background_color.green,
                background.blue == image_info.background_color.blue,
                background.alpha == Quantum(TRANSPARENT_ALPHA),
                forall|k: int| x * CHANNELS <= k < q0.len() ==> q.quantums@[k] == q0[k],
                forall|px: int, c: int|
                    0 <= px < x && 0 <= c < CHANNELS && c != INDEX_CHANNEL
                        ==> #[trigger] q.quantums@[px * CHANNELS + c]
                        == Quantum(background.channel(c as nat)),
                forall|px: int|
                    0 <= px < x ==> #[trigger] q.quantums@[px * CHANNELS + INDEX_CHANNEL as int]
                        == q0[px * CHANNELS + INDEX_CHANNEL as int],
            decreases cols - x,
        {
            proof {
                assert(x < cols * 1) by (nonlinear_arith)
                    requires
                        x < cols,
                ;
                assert(x * CHANNELS + CHANNELS == (x + 1) * CHANNELS) by (nonlinear_arith);
                assert((x + 1) * CHANNELS <= cols * 1 * CHANNELS) by (nonlinear_arith)
                    requires
                        x < cols,
                        CHANNELS == 5,
                ;
            }
            q.set_pixel_from_info(x, &background);
            x = x + 1;
        }
        let ghost before_sync = image.pixels@;
        let ghost qf = q.quantums@;
        image.sync_authentic_pixels(q, exception_info)?;
        proof {
            lemma_null_row_commit(
                before_sync,
                image.pixels@,
                q0,
                qf,
                target,
                cols as nat,
                rows as nat,
                y as nat,
                image_info.background_color,
                background,
            );
        }
        y = y + 1;
    }
    proof {
        assert forall|i: int| 0 <= i < target.len() implies image.pixels@[i] == target[i] by {
            let d = ((cols * CHANNELS) as int);
            assert(cols > 0 && d > 0 && target.len() == rows * d) by (nonlinear_arith)
                requires
                    target.len() == cols * rows * CHANNELS,
                    cols >= 1,
                    d == ((cols * CHANNELS) as int),
                    CHANNELS == 5,
            ;
            assert(crate::image::row_of(i, cols as nat) < rows) by (nonlinear_arith)
                requires
                    d > 0,
                    0 <= i < rows * d,
                    crate::image::row_of(i, cols as nat) == i / d,
            ;
        }
        assert(image.pixels@ =~= target);
    }
    Ok(image)
}

/// One committed row extends the filled prefix of the canvas by one:
/// rows before it already match the target canvas, rows after it are
/// still zero-filled, and the committed view puts the transparent
/// background into every sample of its own row.
proof fn lemma_null_row_commit(
    before: Seq<Quantum>,
    after: Seq<Quantum>,
    q0: Seq<Quantum>,
    qf: Seq<Quantum>,
    target: Seq<Quantum>,
    cols: nat,
    rows: nat,
    y: nat,
    bg: PixelInfo,
    fill: PixelInfo,
)
    requires
        cols >= 1,
        y < rows,
        before.len() == cols * rows * CHANNELS,
        target == null_canvas(cols, rows, bg),
        fill.red == bg.red,
        fill.green == bg.green,
        fill.blue == bg.blue,
        fill.alpha == Quantum(TRANSPARENT_ALPHA),
        q0 == region_seq(before, cols, 0, y, cols, 1),
        qf.len() == cols * 1 * CHANNELS,
        forall|px: int, c: int|
            0 <= px < cols && 0 <= c < CHANNELS && c != INDEX_CHANNEL ==> #[trigger] qf[px
                * CHANNELS + c] == Quantum(fill.channel(c as nat)),
        forall|px: int|
            0 <= px < cols ==> #[trigger] qf[px * CHANNELS + INDEX_CHANNEL as int] == q0[px
                * CHANNELS + INDEX_CHANNEL as int],
        forall|i: int|
            0 <= i < before.len() && crate::image::row_of(i, cols) < y ==> before[i] == target[i],
        forall|i: int|
            0 <= i < before.len() && crate::image::row_of(i, cols) >= y ==> before[i] == Quantum(
                0,
            ),
        after == region_write(before, cols, 0, y, cols, 1, qf),
    ensures
        after.len() == before.len(),
        forall|i: int|
            0 <= i < after.len() && crate::image::row_of(i, cols) < y + 1 ==> after[i]
                == target[i],
        forall|i: int|
            0 <= i < after.len() && crate::image::row_of(i, cols) >= y + 1 ==> after[i]
                == Quantum(0),
{
    let d = (cols * CHANNELS) as int;
    assert(d >= CHANNELS && (0 + cols) * CHANNELS == d && cols * 1 * CHANNELS == d)
        by (nonlinear_arith)
        requires
            cols >= 1,
            d == (cols * CHANNELS) as int,
            CHANNELS == 5,
    ;
    assert forall|i: int| 0 <= i < after.len() implies (after[i] == if crate::image::row_of(
        i,
        cols,
    ) < y {
        target[i]
    } else if crate::image::row_of(i, cols) == y {
        target[i]
    } else {
        Quantum(0)
    }) by {
        let row = i / d;
        let off = i % d;
        vstd::arithmetic::div_mod::lemma_fundamental_div_mod(i, d);
        if row == y {
            // Inside the committed row: the view supplies the sample.
            assert(after[i] == qf[off]);
            let px = off / (CHANNELS as int);
            let c = off % (CHANNELS as int);
            vstd::arithmetic::div_mod::lemma_fundamental_div_mod(off, CHANNELS as int);
            assert(px < cols) by (nonlinear_arith)
                requires
                    off < d,
                    d == (cols * CHANNELS) as int,
                    px == off / (CHANNELS as int),
                    0 <= off,
                    CHANNELS == 5,
            ;
            assert(off == px * CHANNELS + c && 0 <= c < CHANNELS);
            // The sample's channel offset is the same seen from the
            // whole buffer.
            assert(i == CHANNELS * (row * cols) + off) by (nonlinear_arith)
                requires
                    i == d * row + off,
                    d == (cols * CHANNELS) as int,
            ;
            vstd::arithmetic::div_mod::lemma_mod_multiples_vanish(
                (row * cols) as int,
                off,
                CHANNELS as int,
            );
            assert(i % (CHANNELS as int) == c) by {
                assert(off % (CHANNELS as int) == c);
            }
            if c == INDEX_CHANNEL as int {
                // The view kept the snapshot's index sample, which was
                // still zero.
                let k = px * CHANNELS + INDEX_CHANNEL as int;
                assert(q0[k] == before[((y + k / ((cols * CHANNELS) as int)) * cols + 0) * CHANNELS
                    + k % ((cols * CHANNELS) as int)]);
                assert(k / d == 0 && k % d == k) by (nonlinear_arith)
                    requires
                        0 <= k < d,
                        d > 0,
                ;
                assert((y * cols + 0) * CHANNELS + k == d * y + k) by (nonlinear_arith)
                    requires
                        d == (cols * CHANNELS) as int,
                ;
                vstd::arithmetic::div_mod::lemma_fundamental_div_mod_converse(
                    d * y + k,
                    d,
                    y as int,
                    k,
                );
                assert(before[(y * cols + 0) * CHANNELS + k] == Quantum(0));
                assert(after[i] == Quantum(0));
                assert(target[i] == Quantum(0));
            } else {
                assert(after[i] == Quantum(fill.channel(c as nat)));
                if c == ALPHA_CHANNEL as int {
                    assert(fill.channel(c as nat) == TRANSPARENT_ALPHA);
                } else {
                    assert(fill.channel(c as nat) == bg.channel(c as nat));
                }
                assert(after[i] == target[i]);
            }
        } else {
            assert(after[i] == before[i]);
        }
    }
}

/// Encodes a Null request: writes nothing at all and always succeeds.
/// It is useful as an output format that discards its image.
pub fn write_null_image(
    _image_info: &ImageInfo,
    _image: &mut Image,
    _exception_info: &mut ExceptionInfo,
) -> (r: Result<(), ()>)
    ensures
        r is Ok,
        *final(_image) == *old(_image),
        *final(_exception_info) == *old(_exception_info),
{
    Ok(())
}

/// Installs the Null coder into the host's registry: a non-adjoining,
/// implicit (constant-generator) format.  Returns the bridge's compiled
/// interface signature for the host to compare against its own.
pub fn register_null_image(registry: &mut FormatRegistry) -> (sig: usize)
    ensures
        final(registry).entries@ == old(registry).entries@.push(
            CoderEntry {
                id: CoderId::Null,
                flags: CoderFlags(CODER_FLAGS_DEFAULT & !CODER_FLAG_ADJOIN),
                format_type: FormatType::Implicit,
            },
        ),
        sig == IMAGE_CODER_SIGNATURE,
{
    let flags = CoderFlags(CODER_FLAGS_DEFAULT).difference(CoderFlags(CODER_FLAG_ADJOIN));
    registry.register(
        CoderEntry { id: CoderId::Null, flags, format_type: FormatType::Implicit },
    )
}

/// Removes the Null coder from the host's registry; removing it twice is
/// harmless.
pub fn unregister_null_image(registry: &mut FormatRegistry)
    ensures
        final(registry).entries@ == without(old(registry).entries@, CoderId::Null),
{
    registry.unregister(CoderId::Null);
}

} // verus!
