//! Builds texture atlases from keyed images and resolves them at runtime: a
//! packing orchestrator around a skyline bin-packer, the `.rpack.json` wire
//! format with a verified round trip, a loader that rebuilds a queryable
//! atlas, and a query service over the loaded atlases.
pub mod atlas;
pub mod builder;
pub mod collect;
pub mod config;
pub mod imagebuf;
pub mod packer;
pub mod runtime;
pub mod session;
pub mod text;
pub mod wire;

pub use atlas::{AtlasAsset, AtlasFrame, AtlasMetadata, SerializableFrame, SerializableRect};
pub use builder::{ImageFile, Spritesheet, SpritesheetBuildConfig, SpritesheetError};
pub use collect::{collect_images, get_common_prefix, id_from_path};
pub use config::{Commands, SaveImageFormat, TilemapGenerationConfig};
pub use session::SpriteSheetState;
pub use runtime::{
    ImageHandle, ImageNode, RpackAssetHelper, RpackAtlasAsset, RpackAtlasAssetError,
    RpackAtlasAssetLoader, RpackAtlasError, RpackAtlases, Sprite, TextureAtlas,
};
