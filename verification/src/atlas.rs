//! The atlas data model: rectangles, frames, metadata, and the asset that is
//! persisted on disk, together with their mathematical models.
use vstd::prelude::*;

use crate::text::key_le;

verus! {

/// A rectangle in pixels, with the origin at the top-left of the texture
/// atlas.
#[derive(Clone, Copy, Debug, PartialEq, Eq, Structural)]
pub struct SerializableRect {
    /// Horizontal position the rectangle begins at.
    pub x: u32,
    /// Vertical position the rectangle begins at.
    pub y: u32,
    /// Width of the rectangle.
    pub w: u32,
    /// Height of the rectangle.
    pub h: u32,
}

impl SerializableRect {
    /// The rectangle fits inside a canvas of the given dimensions.
    pub open spec fn in_bounds(self, width: u32, height: u32) -> bool {
        self.x + self.w <= width && self.y + self.h <= height
    }

    /// Two rectangles share no pixel.
    pub open spec fn disjoint_from(self, other: SerializableRect) -> bool {
        ||| self.x + self.w <= other.x
        ||| other.x + other.w <= self.x
        ||| self.y + self.h <= other.y
        ||| other.y + other.h <= self.y
    }
}

/// Boundaries and properties of one packed texture, as the packer reports
/// them.
#[derive(Clone, Debug)]
pub struct SerializableFrame {
    /// Key used to uniquely identify this frame.
    pub key: String,
    /// Rectangle describing the texture coordinates and size.
    pub frame: SerializableRect,
    /// True if the texture was rotated during packing; this system never
    /// requests rotation.
    pub rotated: bool,
    /// True if the texture was trimmed during packing; this system never
    /// requests trimming.
    pub trimmed: bool,
    /// Source texture size before any trimming.
    pub source: SerializableRect,
}

/// The mathematical value of one frame: its key as a character sequence and
/// its rectangle.
pub ghost struct FrameModel {
    pub key: Seq<char>,
    pub frame: SerializableRect,
}

/// One named frame within a texture atlas.
#[derive(Clone, Debug)]
pub struct AtlasFrame {
    /// A unique identifier for the frame.
    pub key: String,
    /// The rectangular area of the frame within the texture atlas.
    pub frame: SerializableRect,
}

impl AtlasFrame {
    /// The mathematical value of this frame.
    pub open spec fn model(self) -> FrameModel {
        FrameModel { key: self.key@, frame: self.frame }
    }
}

/// The mathematical value of the atlas metadata, as it appears on the wire.
pub ghost struct MetaModel {
    pub format_version: u32,
    pub app: Seq<char>,
    pub app_version: Seq<char>,
}

/// Metadata about the application and format version that produced an atlas.
#[derive(Clone, Debug)]
pub struct AtlasMetadata {
    /// The version of the texture atlas format.
    pub format_version: u32,
    /// The name of the application that created the atlas.
    pub app: String,
    /// The version of the application that created the atlas.
    pub app_version: String,
    /// Whether to leave the metadata out when the atlas is serialized.
    pub skip_serialization: bool,
}

impl AtlasMetadata {
    /// Returns true if the metadata should be left out during serialization.
    pub fn skip_serialization(&self) -> (r: bool)
        ensures
            r == self.skip_serialization,
    {
        self.skip_serialization
    }

    /// The mathematical value of the metadata fields that reach the wire.
    pub open spec fn model(self) -> MetaModel {
        MetaModel {
            format_version: self.format_version,
            app: self.app@,
            app_version: self.app_version@,
        }
    }
}

impl Default for AtlasMetadata {
    /// The metadata this application writes: format version 1 and the
    /// application's name and version.
    fn default() -> (r: Self)
        ensures
            r.format_version == 1,
            r.app@ == "rpack"@,
            r.app_version@ == "0.1.0"@,
            !r.skip_serialization,
    {
        AtlasMetadata {
            format_version: 1,
            app: "rpack".to_owned(),
            app_version: "0.1.0".to_owned(),
            skip_serialization: false,
        }
    }
}

/// The mathematical value of a serialized atlas: exactly what one `.rpack.json`
/// document says.
pub ghost struct AtlasModel {
    pub width: u32,
    pub height: u32,
    pub filename: Seq<char>,
    pub frames: Seq<FrameModel>,
    pub metadata: Option<MetaModel>,
}

/// A texture atlas asset: the packed image's dimensions and file name, the
/// named frames inside it, and optional producer metadata.
#[derive(Clone, Debug)]
pub struct AtlasAsset {
    /// The overall dimensions of the texture atlas in pixels (width, height).
    pub size: [u32; 2],
    /// The file name of the sibling packed image.
    pub filename: String,
    /// The frames contained within the texture atlas, sorted by key.
    pub frames: Vec<AtlasFrame>,
    /// Metadata about the atlas; left off the wire when suppressed.
    pub metadata: AtlasMetadata,
}

/// The models of a sequence of frames, in order.
pub open spec fn frames_model(frames: Seq<AtlasFrame>) -> Seq<FrameModel> {
    frames.map(|i: int, f: AtlasFrame| f.model())
}

/// `a` comes strictly before `b` in the key order.
pub open spec fn key_lt(a: Seq<char>, b: Seq<char>) -> bool {
    key_le(a, b) && a != b
}

/// The frames are strictly ascending by key; in particular all keys are
/// distinct.
pub open spec fn frames_strictly_sorted(frames: Seq<FrameModel>) -> bool {
    forall|i: int, j: int|
        0 <= i < j < frames.len() ==> key_lt(#[trigger] frames[i].key, #[trigger] frames[j].key)
}

/// Every frame rectangle lies inside the canvas, and no two distinct frames
/// overlap.
pub open spec fn frames_disjoint_in_bounds(frames: Seq<FrameModel>, width: u32, height: u32) -> bool {
    &&& forall|i: int| 0 <= i < frames.len() ==> (#[trigger] frames[i].frame).in_bounds(width, height)
    &&& forall|i: int, j: int|
        0 <= i < frames.len() && 0 <= j < frames.len() && i != j ==> (#[trigger] frames[i].frame).disjoint_from(
            #[trigger] frames[j].frame)
}

impl AtlasAsset {
    /// The mathematical value of this asset's wire form.
    pub open spec fn model(self) -> AtlasModel {
        AtlasModel {
            width: self.size[0],
            height: self.size[1],
            filename: self.filename@,
            frames: frames_model(self.frames@),
            metadata: if self.metadata.skip_serialization {
                None
            } else {
                Some(self.metadata.model())
            },
        }
    }

    /// A well-formed asset: frames sorted strictly by key and lying disjoint
    /// within the canvas.
    pub open spec fn wf(self) -> bool {
        &&& frames_strictly_sorted(frames_model(self.frames@))
        &&& frames_disjoint_in_bounds(frames_model(self.frames@), self.size[0], self.size[1])
    }
}

} // verus!
