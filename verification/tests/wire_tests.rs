use rpack::atlas::{AtlasAsset, AtlasFrame, AtlasMetadata, SerializableRect};
use rpack::collect::{collect_images, get_common_prefix, id_from_path};
use rpack::config::{Commands, SaveImageFormat, TilemapGenerationConfig};
use rpack::runtime::{ImageHandle, RpackAtlasAssetError, RpackAtlasAssetLoader};
use rpack::wire::{atlas_to_json, parse_u32_exec};

fn sample_asset(skip_metadata: bool) -> AtlasAsset {
    let mut metadata = AtlasMetadata::default();
    metadata.skip_serialization = skip_metadata;
    AtlasAsset {
        size: [256, 256],
        filename: String::from("tilemap.png"),
        frames: vec![
            AtlasFrame {
                key: String::from("enemies/slime"),
                frame: SerializableRect { x: 0, y: 0, w: 64, h: 32 },
            },
            AtlasFrame {
                key: String::from("hero"),
                frame: SerializableRect { x: 64, y: 0, w: 16, h: 16 },
            },
        ],
        metadata,
    }
}

#[test]
fn serialized_asset_is_canonical_json() {
    let asset = sample_asset(false);
    let json = atlas_to_json(&asset);
    let expected = "{\"size\":[256,256],\"filename\":\"tilemap.png\",\"frames\":[{\"key\":\"enemies/slime\",\"frame\":{\"x\":0,\"y\":0,\"w\":64,\"h\":32}},{\"key\":\"hero\",\"frame\":{\"x\":64,\"y\":0,\"w\":16,\"h\":16}}],\"metadata\":{\"format_version\":1,\"app\":\"rpack\",\"app_version\":\"0.1.0\"}}";
    assert_eq!(json, expected);
}

#[test]
fn serde_json_reads_the_same_document() {
    let asset = sample_asset(false);
    let json = atlas_to_json(&asset);
    let value: serde_json::Value = serde_json::from_str(&json).expect("valid JSON");
    assert_eq!(value["size"][0], 256);
    assert_eq!(value["size"][1], 256);
    assert_eq!(value["filename"], "tilemap.png");
    assert_eq!(value["frames"].as_array().unwrap().len(), 2);
    assert_eq!(value["frames"][0]["key"], "enemies/slime");
    assert_eq!(value["frames"][0]["frame"]["w"], 64);
    assert_eq!(value["frames"][1]["key"], "hero");
    assert_eq!(value["metadata"]["format_version"], 1);
    assert_eq!(value["metadata"]["app"], "rpack");
}

#[test]
fn metadata_suppression_removes_the_field_entirely() {
    let asset = sample_asset(true);
    let json = atlas_to_json(&asset);
    let value: serde_json::Value = serde_json::from_str(&json).expect("valid JSON");
    assert!(value.get("metadata").is_none());
    let object = value.as_object().unwrap();
    assert_eq!(object.len(), 3);
}

#[test]
fn round_trip_preserves_keys_and_rectangles() {
    let asset = sample_asset(false);
    let json = atlas_to_json(&asset);
    let loader = RpackAtlasAssetLoader;
    let loaded = loader.load_from_json(&json, ImageHandle { id: 7 }).expect("round trip");
    assert_eq!(loaded.files.len(), 2);
    assert_eq!(loaded.files[0].0, "enemies/slime");
    assert_eq!(loaded.files[0].1, 0);
    assert_eq!(loaded.files[1].0, "hero");
    assert_eq!(loaded.files[1].1, 1);
    assert_eq!(loaded.atlas[0], SerializableRect { x: 0, y: 0, w: 64, h: 32 });
    assert_eq!(loaded.atlas[1], SerializableRect { x: 64, y: 0, w: 16, h: 16 });
    assert_eq!(loaded.image, ImageHandle { id: 7 });
}

#[test]
fn round_trip_with_suppressed_metadata_keeps_frames() {
    let asset = sample_asset(true);
    let json = atlas_to_json(&asset);
    let loader = RpackAtlasAssetLoader;
    let loaded = loader.load_from_json(&json, ImageHandle { id: 1 }).expect("round trip");
    assert_eq!(loaded.files.len(), 2);
    assert_eq!(loaded.files[0].0, "enemies/slime");
}

#[test]
fn loader_accepts_pretty_printed_documents() {
    let pretty = "{\n  \"size\": [\n    256,\n    256\n  ],\n  \"filename\": \"tilemap.png\",\n  \"frames\": [\n    {\n      \"key\": \"enemies/slime\",\n      \"frame\": {\n        \"x\": 0,\n        \"y\": 0,\n        \"w\": 64,\n        \"h\": 32\n      }\n    },\n    {\n      \"key\": \"hero\",\n      \"frame\": {\n        \"x\": 64,\n        \"y\": 0,\n        \"w\": 16,\n        \"h\": 16\n      }\n    }\n  ],\n  \"metadata\": {\n    \"format_version\": 1,\n    \"app\": \"rpack\",\n    \"app_version\": \"0.1.0\"\n  }\n}";
    let loader = RpackAtlasAssetLoader;
    let loaded = loader.load_from_json(pretty, ImageHandle { id: 2 }).expect("pretty parse");
    assert_eq!(loaded.files.len(), 2);
    assert_eq!(loaded.files[1].0, "hero");
}

#[test]
fn loader_rejects_malformed_documents() {
    let loader = RpackAtlasAssetLoader;
    let results = [
        loader.load_from_json("", ImageHandle { id: 0 }),
        loader.load_from_json("{\"size\":[16,16]}", ImageHandle { id: 0 }),
        loader.load_from_json("{\"size\":[16,16],\"filename\":\"a.png\",\"frames\":[]", ImageHandle { id: 0 }),
        loader.load_from_json("not json at all", ImageHandle { id: 0 }),
    ];
    for r in results {
        assert!(matches!(r, Err(RpackAtlasAssetError::ParsingError(_))));
    }
}

#[test]
fn loader_rejects_duplicate_frame_keys() {
    let doc = "{\"size\":[64,64],\"filename\":\"a.png\",\"frames\":[{\"key\":\"twin\",\"frame\":{\"x\":0,\"y\":0,\"w\":8,\"h\":8}},{\"key\":\"twin\",\"frame\":{\"x\":8,\"y\":0,\"w\":8,\"h\":8}}]}";
    let loader = RpackAtlasAssetLoader;
    let r = loader.load_from_json(doc, ImageHandle { id: 0 });
    match r {
        Err(RpackAtlasAssetError::DuplicateFrameKey(k)) => assert_eq!(k, "twin"),
        other => panic!("expected a duplicate-key error, got {:?}", other),
    }
}

#[test]
fn string_escapes_round_trip() {
    let mut metadata = AtlasMetadata::default();
    metadata.skip_serialization = false;
    let asset = AtlasAsset {
        size: [8, 8],
        filename: String::from("we\"ird\\name\t.png"),
        frames: vec![AtlasFrame {
            key: String::from("a\nb\u{1f}c"),
            frame: SerializableRect { x: 0, y: 0, w: 1, h: 1 },
        }],
        metadata,
    };
    let json = atlas_to_json(&asset);
    let value: serde_json::Value = serde_json::from_str(&json).expect("valid JSON");
    assert_eq!(value["filename"], "we\"ird\\name\t.png");
    assert_eq!(value["frames"][0]["key"], "a\nb\u{1f}c");
    let loader = RpackAtlasAssetLoader;
    let loaded = loader.load_from_json(&json, ImageHandle { id: 0 }).expect("round trip");
    assert_eq!(loaded.files[0].0, "a\nb\u{1f}c");
}

#[test]
fn number_parsing_is_strict() {
    let chars: Vec<char> = "4294967295,".chars().collect();
    assert_eq!(parse_u32_exec(&chars, 0), Some((4294967295, 10)));
    let chars: Vec<char> = "4294967296".chars().collect();
    assert_eq!(parse_u32_exec(&chars, 0), None);
    let chars: Vec<char> = "007".chars().collect();
    assert_eq!(parse_u32_exec(&chars, 0), None);
    let chars: Vec<char> = "0".chars().collect();
    assert_eq!(parse_u32_exec(&chars, 0), Some((0, 1)));
}

#[test]
fn id_from_path_strips_extension_and_normalizes_separators() {
    assert_eq!(id_from_path("assets\\mobs\\slime.png"), "assets/mobs/slime");
    assert_eq!(id_from_path("plain"), "plain");
    assert_eq!(id_from_path("a.b.c"), "a.b");
}

#[test]
fn common_prefix_is_the_shared_directory() {
    let paths = vec![
        String::from("assets/mobs/slime.png"),
        String::from("assets/mobs/bat.png"),
        String::from("assets/tiles/grass.png"),
    ];
    assert_eq!(get_common_prefix(&paths), "assets/");
    let single = vec![String::from("assets/mobs/slime.png")];
    assert_eq!(get_common_prefix(&single), "assets/mobs/");
    let none: Vec<String> = vec![];
    assert_eq!(get_common_prefix(&none), "");
    let unrelated = vec![String::from("a/x.png"), String::from("b/y.png")];
    assert_eq!(get_common_prefix(&unrelated), "");
}

#[test]
fn save_image_format_from_path() {
    assert_eq!(SaveImageFormat::from_path("tilemap.png"), Some(SaveImageFormat::Png));
    assert_eq!(SaveImageFormat::from_path("tilemap.dds"), Some(SaveImageFormat::Dds));
    assert_eq!(SaveImageFormat::from_path("tilemap.basis"), Some(SaveImageFormat::Basis));
    assert_eq!(SaveImageFormat::from_path("tilemap.txt"), None);
    assert_eq!(SaveImageFormat::from_path("tilemap"), None);
    assert_eq!(SaveImageFormat::Png.extension_str(), ".png");
    assert_eq!(SaveImageFormat::default(), SaveImageFormat::Png);
}

#[test]
fn generate_command_defaults() {
    let cmd = Commands::Generate {
        name: None,
        size: Some(512),
        format: None,
        source_paths: vec![],
        texture_padding: None,
        border_padding: None,
    };
    let config = cmd.generation_config().expect("generate carries a config");
    assert_eq!(config.output_path, "tilemap");
    assert_eq!(config.asset_patterns, vec![String::from(".")]);
    assert_eq!(config.size, Some(512));
    let build = config.build_config();
    assert_eq!(build.max_width, 512);
    assert_eq!(build.texture_padding, 2);
    assert_eq!(build.border_padding, 0);
    assert!(!build.skip_metadata_serialization);
}

#[test]
fn generation_config_defaults() {
    let config = TilemapGenerationConfig {
        asset_patterns: vec![String::from("*.png")],
        output_path: String::from("out"),
        format: None,
        size: None,
        texture_padding: None,
        border_padding: None,
        skip_serializing_metadata: None,
    };
    let build = config.build_config();
    assert_eq!(build.max_width, 2048);
    assert_eq!(build.max_height, 2048);
    assert_eq!(build.texture_padding, 2);
    assert_eq!(build.border_padding, 0);
}

#[test]
fn metadata_defaults() {
    let md = AtlasMetadata::default();
    assert_eq!(md.format_version, 1);
    assert_eq!(md.app, "rpack");
    assert_eq!(md.app_version, "0.1.0");
    assert!(!md.skip_serialization);
    assert!(!md.skip_serialization());
}

#[test]
fn collect_images_skips_undecodable_files() {
    let png = encode_png(3, 2, [10, 20, 30, 255]);
    let files = vec![
        (String::from("mobs\\slime.png"), png.clone()),
        (String::from("notes.txt"), b"not an image".to_vec()),
        (String::from("tiles/grass.png"), png),
    ];
    let images = collect_images(&files);
    assert_eq!(images.len(), 2);
    assert_eq!(images[0].id, "mobs/slime");
    assert_eq!(images[1].id, "tiles/grass");
    assert_eq!(images[0].image.width, 3);
    assert_eq!(images[0].image.height, 2);
    assert_eq!(&images[0].image.pixels[0..4], &[10, 20, 30, 255]);
}

#[test]
fn collect_strips_only_the_extension() {
    // Only the extension after the last dot is stripped: a dotted name stays.
    let png = encode_png(1, 1, [1, 2, 3, 255]);
    let files = vec![
        (String::from("sprite.v2.png"), png.clone()),
        (String::from("plain"), png),
    ];
    let images = collect_images(&files);
    assert_eq!(images.len(), 2);
    assert_eq!(images[0].id, "sprite.v2");
    assert_eq!(images[1].id, "plain");
}

fn encode_png(w: u32, h: u32, rgba: [u8; 4]) -> Vec<u8> {
    let img = image::RgbaImage::from_pixel(w, h, image::Rgba(rgba));
    let mut out = Vec::new();
    image::DynamicImage::ImageRgba8(img)
        .write_to(&mut std::io::Cursor::new(&mut out), image::ImageFormat::Png)
        .expect("encode");
    out
}
