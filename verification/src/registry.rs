//! Coder registration: the format registry and the trampolines that
//! adapt a codec's `Result`-based contract to the host's null-handle and
//! success-boolean conventions.
//!
//! Registration installs a (decoder, encoder, metadata) triple under a
//! format identity and returns the bridge's compiled interface
//! signature; the host compares it with its own to detect binary
//! interface skew at load time.  Unregistration removes every entry of a
//! format and has no failure mode.

use vstd::prelude::*;

use crate::exception::ExceptionInfo;
use crate::image::{BlobState, Image, ImageInfo};
use crate::null::{null_decode_ok, null_decoded, read_null_image, write_null_image};
use crate::wbmp::{read_wbmp_image, wbmp_decode_ok, wbmp_decoded, wbmp_encoded, write_wbmp_image};

verus! {

/// The format may appear several times in one stream.
pub const CODER_FLAG_ADJOIN: u32 = 0x0001;

/// The format reads and writes through an attached byte stream.
pub const CODER_FLAG_BLOB_SUPPORT: u32 = 0x0002;

/// The decoder may run concurrently with calls on other images.
pub const CODER_FLAG_DECODER_THREAD_SUPPORT: u32 = 0x0004;

/// The encoder may run concurrently with calls on other images.
pub const CODER_FLAG_ENCODER_THREAD_SUPPORT: u32 = 0x0008;

/// A file extension may be used to infer this format.
pub const CODER_FLAG_USE_EXTENSION: u32 = 0x0010;

/// The capabilities a coder declares unless it opts out of one.
pub const CODER_FLAGS_DEFAULT: u32 = 0x0001 | 0x0002 | 0x0004 | 0x0008 | 0x0010;

/// The interface version this bridge was built against; the host treats
/// a mismatch with its own signature as a fatal load-time error.
pub const IMAGE_CODER_SIGNATURE: usize = 0x01;

/// Capability flags attached to a registered coder.
#[derive(Clone, Copy, Debug, PartialEq, Eq, Structural)]
pub struct CoderFlags(pub u32);

impl CoderFlags {
    /// Both sets of capabilities.
    pub fn union(self, other: CoderFlags) -> (r: CoderFlags)
        ensures
            r.0 == self.0 | other.0,
    {
        CoderFlags(self.0 | other.0)
    }

    /// These capabilities with `other`'s removed.
    pub fn difference(self, other: CoderFlags) -> (r: CoderFlags)
        ensures
            r.0 == self.0 & !other.0,
    {
        CoderFlags(self.0 & !other.0)
    }

    /// Whether every capability of `other` is present.
    pub fn contains(self, other: CoderFlags) -> (r: bool)
        ensures
            r == (self.0 & other.0 == other.0),
    {
        self.0 & other.0 == other.0
    }
}

/// Which of the bridge's codecs an entry installs.
#[derive(Clone, Copy, Debug, PartialEq, Eq, Structural)]
pub enum CoderId {
    Null,
    Wbmp,
}

/// The semantic category of a format.
#[derive(Clone, Copy, Debug, PartialEq, Eq, Structural)]
pub enum FormatType {
    /// An explicit raster format.
    Undefined,
    /// An implicit, constant-generator format.
    Implicit,
}

/// One installed coder: its identity, capabilities, and category.
#[derive(Clone, Copy, Debug, PartialEq, Eq, Structural)]
pub struct CoderEntry {
    pub id: CoderId,
    pub flags: CoderFlags,
    pub format_type: FormatType,
}

/// The host's global format registry, modelled as explicit state with
/// register and unregister lifecycle calls.
pub struct FormatRegistry {
    pub entries: Vec<CoderEntry>,
}

/// `entries` with every entry of format `id` removed, keeping order.
pub open spec fn without(entries: Seq<CoderEntry>, id: CoderId) -> Seq<CoderEntry>
    decreases entries.len(),
{
    if entries.len() == 0 {
        Seq::empty()
    } else if entries.last().id == id {
        without(entries.drop_last(), id)
    } else {
        without(entries.drop_last(), id) + seq![entries.last()]
    }
}

impl FormatRegistry {
    /// An empty registry, before any coder is installed.
    pub fn new() -> (r: FormatRegistry)
        ensures
            r.entries@ == Seq::<CoderEntry>::empty(),
    {
        FormatRegistry { entries: Vec::new() }
    }

    /// Installs a coder and returns the bridge's compiled interface
    /// signature for the host to compare against its own.
    pub fn register(&mut self, entry: CoderEntry) -> (sig: usize)
        ensures
            final(self).entries@ == old(self).entries@.push(entry),
            sig == IMAGE_CODER_SIGNATURE,
    {
        self.entries.push(entry);
        IMAGE_CODER_SIGNATURE
    }

    /// Removes every entry of format `id`; removing a format that is not
    /// installed changes nothing, so the call is idempotent.
    pub fn unregister(&mut self, id: CoderId)
        ensures
            final(self).entries@ == without(old(self).entries@, id),
    {
        let mut kept: Vec<CoderEntry> = Vec::new();
        let mut i: usize = 0;
        while i < self.entries.len()
            invariant
                i <= self.entries@.len(),
                self.entries@ == old(self).entries@,
                kept@ == without(self.entries@.subrange(0, i as int), id),
            decreases self.entries@.len() - i,
        {
            let entry = self.entries[i];
            proof {
                let sub = self.entries@.subrange(0, i as int);
                let sub1 = self.entries@.subrange(0, i + 1);
                assert(sub1.drop_last() =~= sub);
                assert(sub1.last() == entry);
            }
            if entry.id != id {
                kept.push(entry);
            }
            i = i + 1;
        }
        proof {
            assert(self.entries@.subrange(0, self.entries@.len() as int) =~= self.entries@);
        }
        self.entries = kept;
    }

    /// Finds the first installed entry of format `id`, if any.
    pub fn lookup(&self, id: CoderId) -> (r: Option<CoderEntry>)
        ensures
            match r {
                Some(e) => exists|i: int|
                    0 <= i < self.entries@.len() && self.entries@[i] == e && e.id == id && (
                    forall|j: int| 0 <= j < i ==> self.entries@[j].id != id),
                None => forall|j: int| 0 <= j < self.entries@.len() ==> self.entries@[j].id != id,
            },
    {
        let mut i: usize = 0;
        while i < self.entries.len()
            invariant
                i <= self.entries@.len(),
                forall|j: int| 0 <= j < i ==> self.entries@[j].id != id,
            decreases self.entries@.len() - i,
        {
            let entry = self.entries[i];
            if entry.id == id {
                return Some(entry);
            }
            i = i + 1;
        }
        None
    }
}

/// The decode trampoline: runs the registered decoder for `id` and
/// translates its outcome to the host's handle convention.  On success
/// the produced image is handed to the host (a handle comes back); on
/// failure no image exists (the null handle) and the exception channel
/// already records the failure — a decoder cannot fail silently, nor
/// succeed with a failure recorded.
pub fn dispatch_decode(
    id: CoderId,
    image_info: &ImageInfo,
    exception_info: &mut ExceptionInfo,
) -> (r: Option<Image>)
    requires
        old(exception_info).is_clear(),
    ensures
        (r is Some) <==> final(exception_info).is_clear(),
        id == CoderId::Null ==> ((r is Some) <==> null_decode_ok(*image_info)),
        id == CoderId::Wbmp ==> ((r is Some) <==> wbmp_decode_ok(*image_info)),
        r matches Some(img) ==> (id == CoderId::Null ==> null_decoded(*image_info, img)),
        r matches Some(img) ==> (id == CoderId::Wbmp ==> wbmp_decoded(*image_info, img)),
{
    let result = match id {
        CoderId::Null => read_null_image(image_info, exception_info),
        CoderId::Wbmp => read_wbmp_image(image_info, exception_info),
    };
    match result {
        Ok(image) => Some(image),
        Err(_) => {
            proof {
                // The decoder recorded its failure before returning it.
                assert(!exception_info.is_clear());
            }
            None
        },
    }
}

/// The encode trampoline: runs the registered encoder for `id` on the
/// host's borrowed image and translates its outcome to the host's
/// success boolean.  Both bridge encoders succeed on every image the
/// host can hand in, and a false return would come with the exception
/// channel already recording the failure.
pub fn dispatch_encode(
    id: CoderId,
    image_info: &ImageInfo,
    image: &mut Image,
    exception_info: &mut ExceptionInfo,
) -> (ok: bool)
    requires
        old(exception_info).is_clear(),
        old(image).extent_set(),
        old(image).blob_state == BlobState::Closed,
    ensures
        ok == final(exception_info).is_clear(),
        ok,
        id == CoderId::Null ==> *final(image) == *old(image),
        id == CoderId::Wbmp ==> wbmp_encoded(*old(image), *final(image)),
{
    let result = match id {
        CoderId::Null => write_null_image(image_info, image, exception_info),
        CoderId::Wbmp => write_wbmp_image(image_info, image, exception_info),
    };
    match result {
        Ok(_) => true,
        Err(_) => {
            proof {
                // The encoder recorded its failure before returning it.
                assert(!exception_info.is_clear());
            }
            false
        },
    }
}

} // verus!
