use rpack::builder::{ImageFile, Spritesheet, SpritesheetBuildConfig, SpritesheetError};
use rpack::imagebuf::{get_pixel, Rgba8Image};
use rpack::runtime::{
    ImageHandle, RpackAssetHelper, RpackAtlasAssetLoader, RpackAtlasError, RpackAtlases,
};

fn solid(w: u32, h: u32, rgba: (u8, u8, u8, u8)) -> Rgba8Image {
    let mut pixels = Vec::new();
    for _ in 0..(w as usize * h as usize) {
        pixels.push(rgba.0);
        pixels.push(rgba.1);
        pixels.push(rgba.2);
        pixels.push(rgba.3);
    }
    Rgba8Image { width: w, height: h, pixels }
}

fn config(size: u32, texture_padding: u32, border_padding: u32) -> SpritesheetBuildConfig {
    SpritesheetBuildConfig {
        max_width: size,
        max_height: size,
        border_padding,
        texture_padding,
        skip_metadata_serialization: false,
    }
}

fn three_images() -> Vec<ImageFile> {
    vec![
        ImageFile { id: String::from("big"), image: solid(100, 100, (255, 0, 0, 255)) },
        ImageFile { id: String::from("small_a"), image: solid(50, 50, (0, 255, 0, 255)) },
        ImageFile { id: String::from("small_b"), image: solid(50, 50, (0, 0, 255, 255)) },
    ]
}

#[test]
fn minimality_canvas_is_at_least_the_largest_image() {
    let sheet = Spritesheet::build(&config(2048, 0, 0), &three_images(), "tilemap.png")
        .expect("these images pack");
    // The canvas can never be smaller than the first power-of-two candidate
    // that holds the 100x100 image.
    assert!(sheet.atlas_asset.size[0] >= 128);
    assert_eq!(sheet.atlas_asset.size[0], sheet.atlas_asset.size[1]);
    // The skyline packer places 100+50 side by side only at 256.
    assert_eq!(sheet.atlas_asset.size[0], 256);
}

#[test]
fn determinism_identical_builds_are_byte_identical() {
    let a = Spritesheet::build(&config(2048, 2, 0), &three_images(), "tilemap.png")
        .expect("packs");
    let b = Spritesheet::build(&config(2048, 2, 0), &three_images(), "tilemap.png")
        .expect("packs");
    assert_eq!(a.atlas_asset_json, b.atlas_asset_json);
    assert_eq!(a.atlas_asset.size, b.atlas_asset.size);
    assert_eq!(a.image_data.pixels, b.image_data.pixels);
}

#[test]
fn disjointness_no_two_frames_overlap() {
    let sheet = Spritesheet::build(&config(2048, 0, 0), &three_images(), "tilemap.png")
        .expect("packs");
    let frames = &sheet.atlas_asset.frames;
    assert_eq!(frames.len(), 3);
    for i in 0..frames.len() {
        let a = frames[i].frame;
        assert!(a.x + a.w <= sheet.atlas_asset.size[0]);
        assert!(a.y + a.h <= sheet.atlas_asset.size[1]);
        for j in 0..frames.len() {
            if i != j {
                let b = frames[j].frame;
                let disjoint = a.x + a.w <= b.x || b.x + b.w <= a.x || a.y + a.h <= b.y
                    || b.y + b.h <= a.y;
                assert!(disjoint);
            }
        }
    }
}

#[test]
fn frames_are_sorted_by_key() {
    let sheet = Spritesheet::build(&config(2048, 0, 0), &three_images(), "tilemap.png")
        .expect("packs");
    let keys: Vec<&str> = sheet.atlas_asset.frames.iter().map(|f| f.key.as_str()).collect();
    assert_eq!(keys, vec!["big", "small_a", "small_b"]);
    assert_eq!(sheet.atlas_asset.filename, "tilemap.png");
}

#[test]
fn frames_carry_their_images_dimensions_and_pixels() {
    let sheet = Spritesheet::build(&config(2048, 0, 0), &three_images(), "tilemap.png")
        .expect("packs");
    for frame in &sheet.atlas_asset.frames {
        let expected = match frame.key.as_str() {
            "big" => (100, 100, (255, 0, 0, 255)),
            "small_a" => (50, 50, (0, 255, 0, 255)),
            _ => (50, 50, (0, 0, 255, 255)),
        };
        assert_eq!(frame.frame.w, expected.0);
        assert_eq!(frame.frame.h, expected.1);
        // The composited canvas holds the image's pixels at the frame.
        let p = get_pixel(&sheet.image_data, frame.frame.x, frame.frame.y);
        assert_eq!(p, expected.2);
        let p2 = get_pixel(
            &sheet.image_data,
            frame.frame.x + frame.frame.w - 1,
            frame.frame.y + frame.frame.h - 1,
        );
        assert_eq!(p2, expected.2);
    }
}

#[test]
fn capacity_counts_the_border_on_both_sides() {
    // A 30x30 image with a 2-pixel border can never fit a 32-pixel canvas.
    let images = vec![ImageFile { id: String::from("snug"), image: solid(30, 30, (1, 1, 1, 255)) }];
    let r = Spritesheet::build(&config(32, 0, 2), &images, "tilemap.png");
    match r {
        Err(SpritesheetError::CannotPackImage(key)) => assert_eq!(key, "snug"),
        other => panic!("expected a capacity error, got {:?}", other),
    }
    // With room for the border it packs, and the border stays clear.
    let images = vec![ImageFile { id: String::from("snug"), image: solid(28, 28, (1, 1, 1, 255)) }];
    let sheet = Spritesheet::build(&config(32, 0, 2), &images, "tilemap.png").expect("packs");
    let f = sheet.atlas_asset.frames[0].frame;
    assert!(f.x >= 2 && f.y >= 2);
    assert!(f.x + f.w + 2 <= sheet.atlas_asset.size[0]);
    assert!(f.y + f.h + 2 <= sheet.atlas_asset.size[1]);
}

#[test]
fn asymmetric_limits_cap_at_the_smaller_edge() {
    // The smaller configured dimension bounds the square canvas, so no canvas
    // exceeds either limit.
    let asym = SpritesheetBuildConfig {
        max_width: 2048,
        max_height: 64,
        border_padding: 0,
        texture_padding: 0,
        skip_metadata_serialization: false,
    };
    let images = vec![ImageFile { id: String::from("tile"), image: solid(50, 50, (1, 1, 1, 255)) }];
    let sheet = Spritesheet::build(&asym, &images, "tilemap.png").expect("packs");
    assert!(sheet.atlas_asset.size[0] <= 64);
    // An image taller than the smaller limit is a capacity error.
    let images = vec![ImageFile { id: String::from("tall"), image: solid(10, 100, (1, 1, 1, 255)) }];
    let r = Spritesheet::build(&asym, &images, "tilemap.png");
    match r {
        Err(SpritesheetError::CannotPackImage(key)) => assert_eq!(key, "tall"),
        other => panic!("expected a capacity error, got {:?}", other),
    }
}

#[test]
fn pixels_outside_the_frames_are_transparent() {
    let sheet = Spritesheet::build(&config(2048, 0, 0), &three_images(), "tilemap.png")
        .expect("packs");
    let size = sheet.atlas_asset.size[0];
    for (x, y) in [(size - 1, size - 1), (size - 1, 0), (0, size - 1)] {
        let covered = sheet.atlas_asset.frames.iter().any(|f| {
            f.frame.x <= x && x < f.frame.x + f.frame.w && f.frame.y <= y
                && y < f.frame.y + f.frame.h
        });
        if !covered {
            assert_eq!(get_pixel(&sheet.image_data, x, y), (0, 0, 0, 0));
        }
    }
}

#[test]
fn capacity_failure_names_the_oversize_image() {
    let images = vec![
        ImageFile { id: String::from("fits"), image: solid(10, 10, (1, 1, 1, 255)) },
        ImageFile { id: String::from("too_wide"), image: solid(3000, 10, (1, 1, 1, 255)) },
    ];
    let r = Spritesheet::build(&config(2048, 0, 0), &images, "tilemap.png");
    match r {
        Err(SpritesheetError::CannotPackImage(key)) => assert_eq!(key, "too_wide"),
        other => panic!("expected a capacity error, got {:?}", other),
    }
}

#[test]
fn duplicate_keys_are_a_build_error() {
    let images = vec![
        ImageFile { id: String::from("twin"), image: solid(4, 4, (1, 1, 1, 255)) },
        ImageFile { id: String::from("twin"), image: solid(8, 8, (1, 1, 1, 255)) },
    ];
    let r = Spritesheet::build(&config(2048, 0, 0), &images, "tilemap.png");
    match r {
        Err(SpritesheetError::DuplicateKey(key)) => assert_eq!(key, "twin"),
        other => panic!("expected a duplicate-key error, got {:?}", other),
    }
}

#[test]
fn exhausted_search_fails_to_pack() {
    let images = vec![
        ImageFile { id: String::from("a"), image: solid(600, 600, (1, 1, 1, 255)) },
        ImageFile { id: String::from("b"), image: solid(600, 600, (1, 1, 1, 255)) },
        ImageFile { id: String::from("c"), image: solid(600, 600, (1, 1, 1, 255)) },
        ImageFile { id: String::from("d"), image: solid(600, 600, (1, 1, 1, 255)) },
    ];
    let r = Spritesheet::build(&config(1024, 0, 0), &images, "tilemap.png");
    assert!(matches!(r, Err(SpritesheetError::FailedToPackImage)));
}

#[test]
fn empty_build_yields_the_smallest_canvas() {
    let images: Vec<ImageFile> = vec![];
    let sheet = Spritesheet::build(&config(2048, 2, 0), &images, "empty.png").expect("packs");
    assert_eq!(sheet.atlas_asset.size, [32, 32]);
    assert_eq!(sheet.atlas_asset.frames.len(), 0);
}

#[test]
fn rebuild_json_tracks_field_changes() {
    let mut sheet = Spritesheet::build(&config(2048, 0, 0), &three_images(), "old.png")
        .expect("packs");
    sheet.atlas_asset.filename = String::from("new.png");
    sheet.rebuild_json();
    let value: serde_json::Value = serde_json::from_str(&sheet.atlas_asset_json).unwrap();
    assert_eq!(value["filename"], "new.png");
}

#[test]
fn built_atlas_loads_and_resolves_every_key() {
    let sheet = Spritesheet::build(&config(2048, 0, 0), &three_images(), "tilemap.png")
        .expect("packs");
    let loader = RpackAtlasAssetLoader;
    let atlas = loader
        .load_from_json(&sheet.atlas_asset_json, ImageHandle { id: 11 })
        .expect("round trip");
    for frame in &sheet.atlas_asset.frames {
        let (data, image) = atlas.get_atlas_data(&frame.key).expect("key resolves");
        assert_eq!(image, ImageHandle { id: 11 });
        assert_eq!(data.layout[data.index], frame.frame);
    }
    assert!(atlas.get_atlas_data("missing").is_err());
}

#[test]
fn lookup_with_no_atlas_returns_no_atlas() {
    let atlases = RpackAtlases(vec![]);
    assert!(matches!(atlases.find_atlas_data_by_key("hero"), Err(RpackAtlasError::NoAtlas)));
    assert_eq!(
        atlases.try_make_sprite("hero").expect_err("no atlas"),
        RpackAtlasError::NoAtlas
    );
}

#[test]
fn lookup_finds_the_stored_rectangle_or_wrong_key() {
    let sheet = Spritesheet::build(&config(2048, 0, 0), &three_images(), "tilemap.png")
        .expect("packs");
    let loader = RpackAtlasAssetLoader;
    let atlas = loader
        .load_from_json(&sheet.atlas_asset_json, ImageHandle { id: 3 })
        .expect("round trip");
    let atlases = RpackAtlases(vec![atlas]);
    let (data, image) = atlases.find_atlas_data_by_key("big").expect("present key");
    assert_eq!(image, ImageHandle { id: 3 });
    let rect = data.layout[data.index];
    assert_eq!((rect.w, rect.h), (100, 100));
    let sprite = atlases.try_make_sprite("small_a").expect("present key");
    assert_eq!(sprite.image, ImageHandle { id: 3 });
    let node = atlases.try_make_image_node("small_b").expect("present key");
    assert_eq!(node.image, ImageHandle { id: 3 });
    assert!(matches!(
        atlases.find_atlas_data_by_key("absent"),
        Err(RpackAtlasError::WrongKey)
    ));
    assert_eq!(
        atlases.try_make_image_node("absent").expect_err("unknown key"),
        RpackAtlasError::WrongKey
    );
    let keys = atlases.atlas_data_keys();
    assert_eq!(
        keys,
        vec![String::from("big"), String::from("small_a"), String::from("small_b")]
    );
}

#[test]
fn first_match_wins_across_atlases() {
    let loader = RpackAtlasAssetLoader;
    let doc_a = "{\"size\":[32,32],\"filename\":\"a.png\",\"frames\":[{\"key\":\"shared\",\"frame\":{\"x\":0,\"y\":0,\"w\":8,\"h\":8}}]}";
    let doc_b = "{\"size\":[32,32],\"filename\":\"b.png\",\"frames\":[{\"key\":\"shared\",\"frame\":{\"x\":16,\"y\":16,\"w\":4,\"h\":4}}]}";
    let first = loader.load_from_json(doc_a, ImageHandle { id: 1 }).unwrap();
    let second = loader.load_from_json(doc_b, ImageHandle { id: 2 }).unwrap();
    let atlases = RpackAtlases(vec![first, second]);
    let (data, image) = atlases.find_atlas_data_by_key("shared").expect("present");
    assert_eq!(image, ImageHandle { id: 1 });
    assert_eq!(data.layout[data.index].w, 8);
}

#[test]
fn single_atlas_sprite_helpers() {
    let loader = RpackAtlasAssetLoader;
    let doc = "{\"size\":[32,32],\"filename\":\"a.png\",\"frames\":[{\"key\":\"coin\",\"frame\":{\"x\":1,\"y\":2,\"w\":3,\"h\":4}}]}";
    let atlas = loader.load_from_json(doc, ImageHandle { id: 9 }).unwrap();
    let sprite = atlas.make_sprite("coin").expect("present");
    let ta = sprite.texture_atlas.expect("has frame");
    assert_eq!(ta.layout[ta.index], rpack::SerializableRect { x: 1, y: 2, w: 3, h: 4 });
    assert!(atlas.make_sprite("gem").is_none());
    assert_eq!(
        atlas.try_make_sprite("gem").expect_err("unknown"),
        RpackAtlasError::WrongKey
    );
    assert!(atlas.try_make_image_node("coin").is_ok());
    assert_eq!(loader.extensions(), "rpack.json");
}

#[test]
fn session_state_reports_and_delivers() {
    let mut state = rpack::session::SpriteSheetState::Empty;
    assert!(state.is_none());
    assert!(!state.is_ok());
    state.start_build();
    assert!(state.is_building());
    let sheet = Spritesheet::build(&config(2048, 0, 0), &three_images(), "tilemap.png")
        .expect("packs");
    let err = state.deliver(Ok(sheet));
    assert!(err.is_none());
    assert!(state.is_ok());
    state.start_build();
    let err = state.deliver(Err(SpritesheetError::FailedToPackImage));
    assert!(matches!(err, Some(SpritesheetError::FailedToPackImage)));
    assert!(state.is_none());
}
