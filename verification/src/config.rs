//! Build configuration: the output image format, the generation config read
//! from a `.rpack_gen.json` file, and the command surface that drives a
//! build, reduced to the decisions they make.
use vstd::prelude::*;

use crate::builder::SpritesheetBuildConfig;
use crate::collect::has_dot;

verus! {

/// The format the packed image is saved in.
#[derive(Clone, Copy, Debug, PartialEq, Eq, Structural)]
pub enum SaveImageFormat {
    Png,
    Dds,
    Basis,
}

impl Default for SaveImageFormat {
    /// The default output format.
    fn default() -> (r: Self)
        ensures
            r == SaveImageFormat::Png,
    {
        SaveImageFormat::Png
    }
}

/// The characters after the last dot.
pub open spec fn extension_seq(path: Seq<char>) -> Seq<char> {
    path.skip(crate::collect::before_last_dot(path).len() as int + 1)
}

/// The format a path's extension selects: everything after the last dot,
/// compared against the known extensions.
pub open spec fn spec_format_from_path(path: Seq<char>) -> Option<SaveImageFormat> {
    if !has_dot(path) {
        None
    } else if extension_seq(path) == "png"@ {
        Some(SaveImageFormat::Png)
    } else if extension_seq(path) == "dds"@ {
        Some(SaveImageFormat::Dds)
    } else if extension_seq(path) == "basis"@ {
        Some(SaveImageFormat::Basis)
    } else {
        None
    }
}

impl SaveImageFormat {
    /// Gets the format from a path's file extension, if it names one.
    pub fn from_path(path: &str) -> (r: Option<SaveImageFormat>)
        ensures
            r == spec_format_from_path(path@),
    {
        let chars = crate::text::str_to_chars(path);
        let n = chars.len();
        let cut = crate::collect::find_last_dot(&chars);
        if cut == n {
            proof {
                assert(!has_dot(path@));
            }
            return None;
        }
        proof {
            assert(has_dot(path@));
            crate::collect::lemma_before_last_dot_public(path@, cut as int);
            assert(extension_seq(path@) =~= path@.skip(cut + 1));
        }
        let ext_len = n - (cut + 1);
        let r = if ext_len == 3 && matches_at(&chars, cut + 1, "png") {
            Some(SaveImageFormat::Png)
        } else if ext_len == 3 && matches_at(&chars, cut + 1, "dds") {
            Some(SaveImageFormat::Dds)
        } else if ext_len == 5 && matches_at(&chars, cut + 1, "basis") {
            Some(SaveImageFormat::Basis)
        } else {
            None
        };
        proof {
            reveal_strlit("png");
            reveal_strlit("dds");
            reveal_strlit("basis");
            let ext = path@.skip(cut + 1);
            assert(ext.len() == n - (cut + 1));
            if ext_len == 3 {
                assert((ext =~= "png"@) == (ext[0] == 'p' && ext[1] == 'n' && ext[2] == 'g'));
                assert((ext =~= "dds"@) == (ext[0] == 'd' && ext[1] == 'd' && ext[2] == 's'));
            }
            if ext_len == 5 {
                assert((ext =~= "basis"@) == (ext[0] == 'b' && ext[1] == 'a' && ext[2] == 's'
                    && ext[3] == 'i' && ext[4] == 's'));
            }
        }
        r
    }

    /// The file extension for this format, with its leading dot.
    pub fn extension_str(&self) -> (r: &'static str)
        ensures
            *self == SaveImageFormat::Png ==> r@ == ".png"@,
            *self == SaveImageFormat::Dds ==> r@ == ".dds"@,
            *self == SaveImageFormat::Basis ==> r@ == ".basis"@,
    {
        match self {
            SaveImageFormat::Png => ".png",
            SaveImageFormat::Dds => ".dds",
            SaveImageFormat::Basis => ".basis",
        }
    }
}

/// The characters of `lit` stand at `i`, and `i` is in range.
fn matches_at(chars: &Vec<char>, i: usize, lit: &str) -> (b: bool)
    requires
        i <= chars@.len(),
    ensures
        b == (i + lit@.len() <= chars@.len() && chars@.subrange(i as int, i + lit@.len()) == lit@),
{
    match crate::wire::match_lit_exec(chars, i, lit) {
        Some(_) => true,
        None => false,
    }
}

/// Configuration for generating a tilemap, as read from a `.rpack_gen.json`
/// file; absent fields fall back to defaults.
#[derive(Clone, Debug)]
pub struct TilemapGenerationConfig {
    /// Glob patterns naming the source images, relative to the config file.
    pub asset_patterns: Vec<String>,
    /// Where the atlas files are written, relative to the config file.
    pub output_path: String,
    /// Image format; PNG by default.
    pub format: Option<SaveImageFormat>,
    /// Size of the tilemap texture. Default value is 2048.
    pub size: Option<u32>,
    /// Padding between frames in pixels. Default value is 2.
    pub texture_padding: Option<u32>,
    /// Padding on the outer edge of the packed image in pixels. Default 0.
    pub border_padding: Option<u32>,
    /// Whether the serialized asset leaves the metadata out. Default false.
    pub skip_serializing_metadata: Option<bool>,
}

impl TilemapGenerationConfig {
    /// The build configuration this generation config asks for, with every
    /// absent field at its documented default.
    pub fn build_config(&self) -> (r: SpritesheetBuildConfig)
        ensures
            r.max_width == (match self.size {
                Some(s) => s,
                None => 2048u32,
            }),
            r.max_height == (match self.size {
                Some(s) => s,
                None => 2048u32,
            }),
            r.border_padding == (match self.border_padding {
                Some(b) => b,
                None => 0u32,
            }),
            r.texture_padding == (match self.texture_padding {
                Some(t) => t,
                None => 2u32,
            }),
            r.skip_metadata_serialization == (match self.skip_serializing_metadata {
                Some(b) => b,
                None => false,
            }),
    {
        let size = match self.size {
            Some(s) => s,
            None => 2048,
        };
        SpritesheetBuildConfig {
            max_width: size,
            max_height: size,
            border_padding: match self.border_padding {
                Some(b) => b,
                None => 0,
            },
            texture_padding: match self.texture_padding {
                Some(t) => t,
                None => 2,
            },
            skip_metadata_serialization: match self.skip_serializing_metadata {
                Some(b) => b,
                None => false,
            },
        }
    }
}

/// The commands the command-line surface offers; the host parses arguments
/// into this and performs the file work around it.
#[derive(Clone, Debug)]
pub enum Commands {
    /// Generates a tilemap.
    Generate {
        /// Name of the tilemap to build; `tilemap` when absent.
        name: Option<String>,
        /// Size of the tilemap; 2048 by default.
        size: Option<u32>,
        /// Image format.
        format: Option<SaveImageFormat>,
        /// Asset source paths.
        source_paths: Vec<String>,
        /// Padding between frames in pixels; 2 by default.
        texture_padding: Option<u32>,
        /// Padding on the outer edge of the packed image; 0 by default.
        border_padding: Option<u32>,
    },
    /// Creates a tilemap generation config.
    ConfigCreate {
        /// Path of the config to create.
        config_path: String,
        /// Path of the tilemap to build; `tilemap` when absent.
        output_path: Option<String>,
        /// Size of the tilemap; 2048 by default.
        size: Option<u32>,
        /// Image format.
        format: Option<SaveImageFormat>,
        /// Asset source paths.
        source_paths: Vec<String>,
        /// Padding between frames in pixels; 2 by default.
        texture_padding: Option<u32>,
        /// Padding on the outer edge of the packed image; 0 by default.
        border_padding: Option<u32>,
    },
    /// Generates a tilemap from a config file.
    GenerateFromConfig {
        /// Path of the config to use.
        config_path: String,
    },
}

impl Commands {
    /// The generation config a command describes: `Generate` defaults the
    /// name to `tilemap` and the sources to the working directory,
    /// `ConfigCreate` defaults only the name; `GenerateFromConfig` carries
    /// none and yields `None`.
    pub fn generation_config(&self) -> (r: Option<TilemapGenerationConfig>)
        ensures
            match self {
                Commands::Generate { name, size, format, source_paths, texture_padding, border_padding } => {
                    &&& r is Some
                    &&& r.unwrap().output_path@ == (match name {
                        Some(n) => n@,
                        None => "tilemap"@,
                    })
                    &&& (source_paths@.len() > 0 ==> r.unwrap().asset_patterns@ == source_paths@)
                    &&& (source_paths@.len() == 0 ==> r.unwrap().asset_patterns@.len() == 1
                        && r.unwrap().asset_patterns@[0]@ == "."@)
                    &&& r.unwrap().size == size
                    &&& r.unwrap().format == format
                    &&& r.unwrap().texture_padding == texture_padding
                    &&& r.unwrap().border_padding == border_padding
                    &&& r.unwrap().skip_serializing_metadata is None
                },
                Commands::ConfigCreate { output_path, size, format, source_paths, texture_padding, border_padding, .. } => {
                    &&& r is Some
                    &&& r.unwrap().output_path@ == (match output_path {
                        Some(n) => n@,
                        None => "tilemap"@,
                    })
                    &&& r.unwrap().asset_patterns@ == source_paths@
                    &&& r.unwrap().size == size
                    &&& r.unwrap().format == format
                    &&& r.unwrap().texture_padding == texture_padding
                    &&& r.unwrap().border_padding == border_padding
                    &&& r.unwrap().skip_serializing_metadata is None
                },
                Commands::GenerateFromConfig { .. } => r is None,
            },
    {
        match self {
            Commands::Generate { name, size, format, source_paths, texture_padding, border_padding } => {
                let output_path = match name {
                    Some(n) => n.clone(),
                    None => "tilemap".to_owned(),
                };
                let asset_patterns = if source_paths.len() == 0 {
                    let mut v: Vec<String> = Vec::new();
                    v.push(".".to_owned());
                    v
                } else {
                    clone_strings(source_paths)
                };
                Some(TilemapGenerationConfig {
                    asset_patterns,
                    output_path,
                    format: *format,
                    size: *size,
                    texture_padding: *texture_padding,
                    border_padding: *border_padding,
                    skip_serializing_metadata: None,
                })
            },
            Commands::ConfigCreate { output_path, size, format, source_paths, texture_padding, border_padding, .. } => {
                let output_path = match output_path {
                    Some(n) => n.clone(),
                    None => "tilemap".to_owned(),
                };
                Some(TilemapGenerationConfig {
                    asset_patterns: clone_strings(source_paths),
                    output_path,
                    format: *format,
                    size: *size,
                    texture_padding: *texture_padding,
                    border_padding: *border_padding,
                    skip_serializing_metadata: None,
                })
            },
            Commands::GenerateFromConfig { .. } => None,
        }
    }
}

/// Copies a vector of strings.
fn clone_strings(v: &Vec<String>) -> (r: Vec<String>)
    ensures
        r@ == v@,
{
    let mut r: Vec<String> = Vec::new();
    let n = v.len();
    let mut i: usize = 0;
    while i < n
        invariant
            i <= n,
            n == v@.len(),
            r@ == v@.take(i as int),
        decreases n - i,
    {
        r.push(v[i].clone());
        proof {
            assert(v@.take(i + 1) =~= v@.take(i as int).push(v@[i as int]));
        }
        i = i + 1;
    }
    proof {
        assert(v@.take(n as int) =~= v@);
    }
    r
}

} // verus!
