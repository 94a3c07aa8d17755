use render_2d::loader::compose::UvRect;
use render_2d::loader::decode::{
    decode_image, image_from_decoded, load_as_atlas, load_image, load_images, load_texture,
    SourceFile,
};
use render_2d::loader::sprite::register_sprite;
use render_2d::loader::texture::{register_textures, PackError};
use render_2d::resource::{Resource, ResourceClass, ResourceKey, Resources};

/// The bytes of a PNG file of the given extent; pixel `i` is `(i, fill, 0, 255)`.
fn png(width: usize, height: usize, fill: u8) -> Vec<u8> {
    let pixels: Vec<lodepng::RGBA> = (0..width * height)
        .map(|i| lodepng::RGBA { r: i as u8, g: fill, b: 0, a: 255 })
        .collect();
    lodepng::encode32(&pixels, width, height).unwrap()
}

fn file(path: &str, width: usize, height: usize, fill: u8) -> SourceFile {
    SourceFile { path: path.to_string(), bytes: png(width, height, fill) }
}

fn registry() -> Resources {
    let mut resources = Resources::new();
    register_textures(&mut resources);
    register_sprite(&mut resources);
    resources
}

#[test]
fn decoding_lays_pixels_out_as_rgba_bytes() {
    let image = decode_image("two".to_string(), &png(2, 1, 7)).unwrap();
    assert_eq!(image.name, "two");
    assert_eq!((image.width, image.height), (2, 1));
    assert_eq!(image.pixels, vec![0, 7, 0, 255, 1, 7, 0, 255]);
}

#[test]
fn decoding_what_is_no_png_fails() {
    let res = decode_image("bad".to_string(), &[1, 2, 3, 4, 5]);
    assert!(matches!(res.err(), Some(PackError::DecodeFailure(code)) if code != 0));
    let empty = decode_image("empty".to_string(), &[]).err();
    assert!(matches!(empty, Some(PackError::DecodeFailure(code)) if code != 0));
}

#[test]
fn decoded_buffer_must_match_the_extent() {
    let ok = image_from_decoded("ok".to_string(), 2, 3, vec![0u8; 24]).unwrap();
    assert_eq!((ok.width, ok.height, ok.pixels.len()), (2, 3, 24));
    assert_eq!(
        image_from_decoded("short".to_string(), 2, 3, vec![0u8; 23]).err(),
        Some(PackError::DecodeFailure(0))
    );
    assert_eq!(
        image_from_decoded("long".to_string(), 2, 3, vec![0u8; 28]).err(),
        Some(PackError::DecodeFailure(0))
    );
    assert_eq!(
        image_from_decoded("wide".to_string(), 0x1_0000_0000, 0, Vec::new()).err(),
        Some(PackError::DecodeFailure(0))
    );
    assert!(image_from_decoded("none".to_string(), 0, 5, Vec::new()).is_ok());
}

#[test]
fn load_image_appends_under_the_relative_name() {
    let mut images = Vec::new();
    assert_eq!(load_image("root\\", "root\\dir\\a.png", &png(3, 2, 1), &mut images), Ok(()));
    let bad = load_image("root\\", "root\\b.png", &[0, 1, 2], &mut images);
    assert!(matches!(bad, Err(PackError::DecodeFailure(_))));
    assert_eq!(images.len(), 1);
    assert_eq!(images[0].name, "dir/a.png");
    assert_eq!((images[0].width, images[0].height), (3, 2));
    assert_eq!(images[0].pixels.len(), 24);
}

#[test]
fn load_images_keeps_the_order_of_the_files() {
    let files = vec![file("r/x.png", 1, 1, 1), file("r/y.png", 2, 2, 2), file("r/z.png", 3, 1, 3)];
    let images = load_images("r/", &files).unwrap();
    let names: Vec<&str> = images.iter().map(|i| i.name.as_str()).collect();
    assert_eq!(names, vec!["x.png", "y.png", "z.png"]);
    assert_eq!(images[1].pixels[1], 2);
}

#[test]
fn one_bad_file_fails_the_whole_load() {
    let files = vec![
        file("r/x.png", 1, 1, 1),
        SourceFile { path: "r/bad.png".to_string(), bytes: vec![9, 9, 9] },
    ];
    assert!(matches!(load_images("r/", &files).err(), Some(PackError::DecodeFailure(_))));
    let mut resources = registry();
    let res = load_as_atlas("r/", &files, &mut resources);
    assert!(matches!(res, Err(PackError::DecodeFailure(_))));
    assert_eq!(resources.find_resource_key("spritesheet"), None);
    assert_eq!(resources.find_resource_key("x.png"), None);
}

#[test]
fn files_are_loaded_as_one_atlas() {
    let files = vec![
        file("assets\\c.png", 16, 16, 3),
        file("assets\\a.png", 64, 32, 1),
        file("assets\\ui\\b.png", 32, 32, 2),
    ];
    let mut resources = registry();
    let key = load_as_atlas("assets\\", &files, &mut resources).unwrap();
    assert_eq!(key, ResourceKey { class: ResourceClass::Texture, id: 0 });
    assert_eq!(resources.get_resource_key("spritesheet"), key);
    match resources.get_resource(&key) {
        Resource::Texture(t) => {
            assert_eq!((t.width, t.height), (64, 64));
            // green channel of the first pixel of each image
            assert_eq!(t.data[1], 1);
            assert_eq!(t.data[(32 * 64) * 4 + 1], 2);
            assert_eq!(t.data[(32 * 64 + 32) * 4 + 1], 3);
            // red channel counts the pixels of an image row by row
            assert_eq!(t.data[(1 * 64 + 2) * 4], 66);
        }
        _ => panic!("the atlas is no sprite"),
    }
    let c = resources.get_resource_key("c.png");
    assert_eq!(c, ResourceKey { class: ResourceClass::Sprite, id: 2 });
    match resources.get_resource(&c) {
        Resource::Sprite(s) => {
            assert_eq!(s.texture, key);
            assert_eq!(s.uv, UvRect { min_u: 513, min_v: 513, max_u: 767, max_v: 767, scale: 1024 });
        }
        _ => panic!("the sprite is no texture"),
    }
    assert_eq!(
        resources.get_resource_key("ui/b.png"),
        ResourceKey { class: ResourceClass::Sprite, id: 1 }
    );
}

#[test]
fn no_file_is_an_empty_input() {
    let mut resources = registry();
    assert_eq!(load_as_atlas("r/", &Vec::new(), &mut resources), Err(PackError::EmptyInput));
}

#[test]
fn load_texture_registers_the_decoded_pixels() {
    let mut resources = registry();
    let key = load_texture("/work/img/t.png", "/work/", &png(2, 2, 5), &mut resources).unwrap();
    assert_eq!(key, ResourceKey { class: ResourceClass::Texture, id: 0 });
    assert_eq!(resources.get_resource_key("img/t.png"), key);
    match resources.get_resource(&key) {
        Resource::Texture(t) => {
            assert_eq!((t.width, t.height), (2, 2));
            assert_eq!(t.data, vec![0, 5, 0, 255, 1, 5, 0, 255, 2, 5, 0, 255, 3, 5, 0, 255]);
        }
        _ => panic!("the texture is no sprite"),
    }
    let res = load_texture("/work/img/u.png", "/work/", &[0u8; 10], &mut resources);
    assert!(matches!(res, Err(PackError::DecodeFailure(_))));
    assert_eq!(resources.find_resource_key("img/u.png"), None);
}

#[test]
fn decode_failure_carries_the_code_of_the_decoder() {
    let bytes = [1u8, 2, 3, 4, 5];
    let expected = lodepng::ErrorCode::from(lodepng::decode32(&bytes[..]).err().unwrap()).0;
    assert_ne!(expected, 0);
    let res = decode_image("bad".to_string(), &bytes);
    assert_eq!(res.err(), Some(PackError::DecodeFailure(expected)));
}
