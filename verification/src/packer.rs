//! The bin-packer behind its contract: a skyline packing session from the
//! `texture_packer` crate, driven with plain dimensions and read back as
//! plain rectangles.
//!
//! The session is modelled by three values: the limits it was created with,
//! the sequence of dimensions successfully placed so far, and the map from
//! keys to recorded frame rectangles. Where a rectangle lands is
//! `skyline_place`, a pure function of the limits, the placement history and
//! the dimensions: the skyline algorithm reads nothing else (no randomness,
//! no hash order) when rotation and trimming are off, as this session always
//! configures them.
use vstd::prelude::*;

use crate::imagebuf::Rgba8Image;

verus! {

/// One skyline packing session of `texture_packer::TexturePacker`.
#[verifier::external_body]
pub struct PackerSession {
    inner: texture_packer::TexturePacker<
        'static,
        texture_packer::texture::memory_rgba8_texture::MemoryRGBA8Texture,
        String,
    >,
}

/// The limits the session was created with:
/// `(max_width, max_height, border_padding, texture_padding)`.
pub uninterp spec fn packer_limits(p: PackerSession) -> (u32, u32, u32, u32);

/// The dimensions successfully placed so far, in order.
pub uninterp spec fn packer_placed(p: PackerSession) -> Seq<(u32, u32)>;

/// The frame rectangles recorded so far, by key: `(x, y, w, h)`.
pub uninterp spec fn packer_frames(p: PackerSession) -> Map<Seq<char>, (u32, u32, u32, u32)>;

/// The frame rectangle that the skyline packer records for a `width` x
/// `height` texture, given the limits and the dimensions placed before it, or
/// `None` when it does not fit.
pub uninterp spec fn skyline_place(
    limits: (u32, u32, u32, u32),
    placed: Seq<(u32, u32)>,
    width: u32,
    height: u32,
) -> Option<(u32, u32, u32, u32)>;

/// Relies on `texture_packer::TexturePacker::new_skyline`: a fresh session
/// holds no frames. Rotation, trimming, extrusion and debug outlines are
/// switched off, as the model assumes.
#[verifier::external_body]
pub fn packer_new(
    max_width: u32,
    max_height: u32,
    border_padding: u32,
    texture_padding: u32,
) -> (p: PackerSession)
    ensures
        packer_limits(p).0 == max_width,
        packer_limits(p).1 == max_height,
        packer_limits(p).2 == border_padding,
        packer_limits(p).3 == texture_padding,
        packer_placed(p).len() == 0,
        packer_frames(p).dom() =~= Set::empty(),
{
    PackerSession {
        inner: texture_packer::TexturePacker::new_skyline(
            texture_packer::TexturePackerConfig {
                max_width,
                max_height,
                border_padding,
                texture_padding,
                allow_rotation: false,
                force_max_dimensions: true,
                texture_extrusion: 0,
                trim: false,
                texture_outlines: false,
            },
        ),
    }
}

/// Relies on `texture_packer::TexturePacker::pack_own`: with trimming off it
/// places the texture's dimensions on the skyline; on success it records the
/// frame rectangle (shifted by the border padding, with the texture's own
/// width and height) under the key, and on failure it changes nothing. The
/// preconditions rule out the inputs on which the packer itself panics: a
/// zero-width or zero-height skyline border, a pixel count the memory
/// texture's constructor cannot state in `u32`, and coordinates that the
/// skyline walk or the border shift would overflow.
#[verifier::external_body]
pub fn packer_insert(p: &mut PackerSession, key: &String, image: &Rgba8Image) -> (ok: bool)
    requires
        image.wf(),
        image.width >= 1,
        image.height >= 1,
        image.width * image.height <= u32::MAX,
        packer_limits(*old(p)).0 >= 1,
        packer_limits(*old(p)).1 >= 1,
        packer_limits(*old(p)).0 + image.width + packer_limits(*old(p)).3 <= u32::MAX,
        packer_limits(*old(p)).1 + image.height + packer_limits(*old(p)).3 <= u32::MAX,
        packer_limits(*old(p)).0 + packer_limits(*old(p)).2 <= u32::MAX,
        packer_limits(*old(p)).1 + packer_limits(*old(p)).2 <= u32::MAX,
    ensures
        packer_limits(*final(p)) == packer_limits(*old(p)),
        match skyline_place(
            packer_limits(*old(p)),
            packer_placed(*old(p)),
            image.width,
            image.height,
        ) {
            Some(r) => ok && r.2 == image.width && r.3 == image.height && packer_placed(*final(p))
                == packer_placed(*old(p)).push((image.width, image.height)) && packer_frames(
                *final(p),
            ) == packer_frames(*old(p)).insert(key@, r),
            None => !ok && packer_placed(*final(p)) == packer_placed(*old(p)) && packer_frames(
                *final(p),
            ) == packer_frames(*old(p)),
        },
{
    let tex = texture_packer::texture::memory_rgba8_texture::MemoryRGBA8Texture::from_memory(
        image.pixels.as_slice(),
        image.width,
        image.height,
    );
    p.inner.pack_own(key.clone(), tex).is_ok()
}

/// Relies on `texture_packer::TexturePacker::get_frame`: returns the recorded
/// frame rectangle for the key, if one was recorded.
#[verifier::external_body]
pub fn packer_get_frame(p: &PackerSession, key: &String) -> (r: Option<(u32, u32, u32, u32)>)
    ensures
        packer_frames(*p).dom().contains(key@) ==> r == Some(packer_frames(*p)[key@]),
        !packer_frames(*p).dom().contains(key@) ==> r is None,
{
    match p.inner.get_frame(key) {
        Some(f) => Some((f.frame.x, f.frame.y, f.frame.w, f.frame.h)),
        None => None,
    }
}

} // verus!
