use render_2d::loader::compose::{blit, SpriteEntry, UvRect};
use render_2d::loader::image::{sort_images, Image};
use render_2d::loader::node::{ImageNode, Region};
use render_2d::loader::texture::{
    check_side, create_atlas, create_sprite_name, fits_some_side, get_minimum_containing_square,
    regions_apart, Atlas, PackError,
};

fn image(name: &str, width: u32, height: u32, fill: u8) -> Image {
    Image {
        name: name.to_string(),
        width,
        height,
        pixels: vec![fill; (width as usize) * (height as usize) * 4],
    }
}

/// The pixel rectangle (x, y, width, height) that a texture rectangle stands for.
fn rect(uv: &UvRect) -> (i64, i64, i64, i64) {
    let x = (uv.min_u - 1) / 16;
    let y = (uv.min_v - 1) / 16;
    let w = (uv.max_u + 1) / 16 - x;
    let h = (uv.max_v + 1) / 16 - y;
    (x, y, w, h)
}

fn overlap(a: (i64, i64, i64, i64), b: (i64, i64, i64, i64)) -> bool {
    a.0 < b.0 + b.2 && b.0 < a.0 + a.2 && a.1 < b.1 + b.3 && b.1 < a.1 + a.3
}

fn assert_no_overlap_and_contained(atlas: &Atlas) {
    let size = atlas.size as i64;
    for (i, a) in atlas.sprites.iter().enumerate() {
        let ra = rect(&a.uv);
        assert!(ra.0 >= 0 && ra.1 >= 0 && ra.0 + ra.2 <= size && ra.1 + ra.3 <= size);
        assert_eq!(a.uv.scale, 16 * size);
        for b in atlas.sprites.iter().skip(i + 1) {
            assert!(!overlap(ra, rect(&b.uv)), "{} overlaps {}", a.name, b.name);
        }
    }
}

fn entry<'a>(atlas: &'a Atlas, name: &str) -> &'a SpriteEntry {
    atlas.sprites.iter().find(|s| s.name == name).unwrap()
}

fn pixel(atlas: &Atlas, x: usize, y: usize) -> u8 {
    atlas.pixels[(y * atlas.size as usize + x) * 4]
}

#[test]
fn containing_square_values() {
    assert_eq!(get_minimum_containing_square(0), 1);
    assert_eq!(get_minimum_containing_square(1), 1);
    assert_eq!(get_minimum_containing_square(2), 2);
    assert_eq!(get_minimum_containing_square(3), 4);
    assert_eq!(get_minimum_containing_square(64), 64);
    assert_eq!(get_minimum_containing_square(100), 128);
    assert_eq!(get_minimum_containing_square(128), 128);
    assert_eq!(get_minimum_containing_square(129), 256);
    assert_eq!(get_minimum_containing_square(0x4000_0001), 0x8000_0000);
    assert_eq!(get_minimum_containing_square(0x8000_0000), 0x8000_0000);
}

#[test]
fn side_limits() {
    assert!(check_side(1));
    assert!(check_side(4096));
    assert!(!check_side(0x4000_0001));
    assert!(!check_side(0x8000_0000));
}

#[test]
fn sort_is_by_height_then_width_and_stable() {
    let images = vec![
        image("low", 50, 10, 0),
        image("tall_narrow", 10, 40, 0),
        image("tie_first", 20, 20, 0),
        image("tall_wide", 30, 40, 0),
        image("tie_second", 20, 20, 0),
        image("mid", 25, 20, 0),
    ];
    let names: Vec<String> = sort_images(images).into_iter().map(|i| i.name).collect();
    assert_eq!(
        names,
        vec!["tall_wide", "tall_narrow", "mid", "tie_first", "tie_second", "low"]
    );
}

#[test]
fn sort_never_compares_width_with_height() {
    // 30x10 against 5x20: the higher one comes first although it is narrower
    // than the other is wide.
    let images = vec![image("wide", 30, 10, 0), image("high", 5, 20, 0)];
    let names: Vec<String> = sort_images(images).into_iter().map(|i| i.name).collect();
    assert_eq!(names, vec!["high", "wide"]);
}

#[test]
fn insert_splits_a_free_region() {
    let mut node = ImageNode::Empty { width: 64, height: 48 };
    assert!(node.try_insert(image("a", 40, 16, 0)).is_none());
    match &node {
        ImageNode::Occupied { image, left, down } => {
            assert_eq!(image.name, "a");
            assert!(matches!(**left, ImageNode::Empty { width: 24, height: 16 }));
            assert!(matches!(**down, ImageNode::Empty { width: 64, height: 32 }));
        }
        ImageNode::Empty { .. } => panic!("the node stayed empty"),
    }
}

#[test]
fn insert_hands_back_what_does_not_fit() {
    let mut node = ImageNode::Empty { width: 8, height: 8 };
    let back = node.try_insert(image("big", 9, 1, 7));
    assert_eq!(back.unwrap().name, "big");
    assert!(matches!(node, ImageNode::Empty { width: 8, height: 8 }));
}

#[test]
fn insert_tries_left_before_down() {
    let mut node = ImageNode::Empty { width: 64, height: 64 };
    assert!(node.try_insert(image("a", 32, 32, 0)).is_none());
    assert!(node.try_insert(image("b", 16, 16, 0)).is_none());
    match &node {
        ImageNode::Occupied { left, down, .. } => {
            assert!(matches!(**left, ImageNode::Occupied { .. }));
            assert!(matches!(**down, ImageNode::Empty { width: 64, height: 32 }));
        }
        ImageNode::Empty { .. } => panic!("the node stayed empty"),
    }
}

#[test]
fn grow_widens_free_regions_by_what_is_left() {
    let mut node = ImageNode::Empty { width: 128, height: 128 };
    assert!(node.try_insert(image("a", 100, 100, 0)).is_none());
    assert!(node.can_grow_width(256));
    assert!(node.can_grow_height(256));
    node.grow_width(256);
    node.grow_height(256);
    match &node {
        ImageNode::Occupied { left, down, .. } => {
            assert!(matches!(**left, ImageNode::Empty { width: 156, height: 156 }));
            assert!(matches!(**down, ImageNode::Empty { width: 156, height: 156 }));
        }
        ImageNode::Empty { .. } => panic!("the node stayed empty"),
    }
}

#[test]
fn grow_keeps_a_larger_free_region() {
    let mut node = ImageNode::Empty { width: 300, height: 7 };
    node.grow_width(256);
    node.grow_height(256);
    assert!(matches!(node, ImageNode::Empty { width: 300, height: 256 }));
}

#[test]
fn grow_is_refused_where_an_image_is_wider_than_what_is_left() {
    let mut node = ImageNode::Empty { width: 128, height: 128 };
    assert!(node.try_insert(image("a", 100, 50, 0)).is_none());
    assert!(node.try_insert(image("b", 120, 40, 0)).is_none());
    assert!(node.try_insert(image("c", 128, 30, 0)).is_none());
    assert!(!node.can_grow_width(256));
    assert!(node.can_grow_width(348));
    assert!(node.can_grow_height(256));
    assert!(!node.can_grow_height(119));
    assert!(node.can_grow_height(120));
}

#[test]
fn blit_copies_rows_and_leaves_the_rest() {
    let size: u32 = 4;
    let mut out = vec![0u8; 4 * 4 * 4];
    let img = Image {
        name: "i".to_string(),
        width: 2,
        height: 2,
        pixels: (1u8..=16).collect(),
    };
    blit(&img, 1, 2, &mut out, size);
    let mut expected = vec![0u8; 64];
    // row 2, columns 1 and 2
    expected[(2 * 4 + 1) * 4..(2 * 4 + 3) * 4].copy_from_slice(&[1, 2, 3, 4, 5, 6, 7, 8]);
    // row 3, columns 1 and 2
    expected[(3 * 4 + 1) * 4..(3 * 4 + 3) * 4].copy_from_slice(&[9, 10, 11, 12, 13, 14, 15, 16]);
    assert_eq!(out, expected);
}

#[test]
fn three_images_of_falling_size() {
    let atlas = create_atlas(vec![
        image("a", 64, 32, 1),
        image("b", 32, 32, 2),
        image("c", 16, 16, 3),
    ])
    .unwrap();
    assert_eq!(atlas.size, 64);
    let names: Vec<&str> = atlas.sprites.iter().map(|s| s.name.as_str()).collect();
    assert_eq!(names, vec!["a", "b", "c"]);
    assert_eq!(rect(&entry(&atlas, "a").uv), (0, 0, 64, 32));
    assert_eq!(rect(&entry(&atlas, "b").uv), (0, 32, 32, 32));
    assert_eq!(rect(&entry(&atlas, "c").uv), (32, 32, 16, 16));
    assert_eq!(
        entry(&atlas, "c").uv,
        UvRect { min_u: 513, min_v: 513, max_u: 767, max_v: 767, scale: 1024 }
    );
    assert_no_overlap_and_contained(&atlas);
    assert_eq!(pixel(&atlas, 0, 0), 1);
    assert_eq!(pixel(&atlas, 63, 31), 1);
    assert_eq!(pixel(&atlas, 0, 32), 2);
    assert_eq!(pixel(&atlas, 31, 63), 2);
    assert_eq!(pixel(&atlas, 32, 32), 3);
    assert_eq!(pixel(&atlas, 47, 47), 3);
    assert_eq!(pixel(&atlas, 48, 48), 0);
    assert_eq!(pixel(&atlas, 63, 63), 0);
}

#[test]
fn single_image() {
    let atlas = create_atlas(vec![image("only", 100, 50, 9)]).unwrap();
    assert_eq!(atlas.size, 128);
    assert_eq!(atlas.pixels.len(), 128 * 128 * 4);
    assert_eq!(atlas.sprites.len(), 1);
    let uv = atlas.sprites[0].uv;
    assert_eq!(uv, UvRect { min_u: 1, min_v: 1, max_u: 1599, max_v: 799, scale: 2048 });
    let eps = 1.0f64 / (16.0 * 128.0);
    let scale = uv.scale as f64;
    assert!((uv.min_u as f64 / scale - eps).abs() < 1e-12);
    assert!((uv.min_v as f64 / scale - eps).abs() < 1e-12);
    assert!((uv.max_u as f64 / scale - (100.0 / 128.0 - eps)).abs() < 1e-12);
    assert!((uv.max_v as f64 / scale - (50.0 / 128.0 - eps)).abs() < 1e-12);
    assert_eq!(pixel(&atlas, 99, 49), 9);
    assert_eq!(pixel(&atlas, 100, 49), 0);
    assert_eq!(pixel(&atlas, 99, 50), 0);
}

#[test]
fn uv_round_trip_within_the_inset() {
    let atlas = create_atlas(vec![
        image("a", 64, 32, 1),
        image("b", 32, 32, 2),
        image("c", 16, 16, 3),
    ])
    .unwrap();
    let extents = [("a", 64.0f64, 32.0f64), ("b", 32.0, 32.0), ("c", 16.0, 16.0)];
    let size = atlas.size as f64;
    let eps = 1.0 / (16.0 * size);
    for (name, w, h) in extents {
        let uv = entry(&atlas, name).uv;
        let scale = uv.scale as f64;
        let du = (uv.max_u - uv.min_u) as f64 / scale * size;
        let dv = (uv.max_v - uv.min_v) as f64 / scale * size;
        assert!((du - w).abs() <= 2.0 * eps * size + 1e-9);
        assert!((dv - h).abs() <= 2.0 * eps * size + 1e-9);
        assert_eq!(uv.max_u - uv.min_u, 16 * (w as i64) - 2);
        assert_eq!(uv.max_v - uv.min_v, 16 * (h as i64) - 2);
    }
}

#[test]
fn growth_doubles_the_side() {
    let atlas = create_atlas(vec![
        image("one", 100, 100, 1),
        image("two", 100, 100, 2),
        image("three", 100, 100, 3),
    ])
    .unwrap();
    assert_eq!(atlas.size, 256);
    assert_eq!(atlas.pixels.len(), 256 * 256 * 4);
    assert_eq!(rect(&entry(&atlas, "one").uv), (0, 0, 100, 100));
    assert_eq!(rect(&entry(&atlas, "two").uv), (100, 0, 100, 100));
    assert_eq!(rect(&entry(&atlas, "three").uv), (0, 100, 100, 100));
    assert_no_overlap_and_contained(&atlas);
    assert_eq!(pixel(&atlas, 99, 99), 1);
    assert_eq!(pixel(&atlas, 100, 99), 2);
    assert_eq!(pixel(&atlas, 99, 100), 3);
    assert_eq!(pixel(&atlas, 200, 200), 0);
}

#[test]
fn packing_twice_gives_the_same_atlas() {
    let input = vec![
        image("a", 40, 70, 1),
        image("b", 70, 40, 2),
        image("c", 33, 33, 3),
        image("d", 5, 90, 4),
    ];
    let first = create_atlas(input.clone()).unwrap();
    let second = create_atlas(input).unwrap();
    assert_eq!(first.size, second.size);
    assert_eq!(first.pixels, second.pixels);
    assert_eq!(first.sprites.len(), second.sprites.len());
    for (a, b) in first.sprites.iter().zip(second.sprites.iter()) {
        assert_eq!(a.name, b.name);
        assert_eq!(a.uv, b.uv);
    }
}

#[test]
fn side_is_a_power_of_two_and_holds_every_image() {
    let atlas = create_atlas(vec![
        image("a", 40, 70, 1),
        image("b", 70, 40, 2),
        image("c", 33, 33, 3),
        image("d", 5, 90, 4),
    ])
    .unwrap();
    assert_eq!(atlas.size.count_ones(), 1);
    assert_eq!(atlas.size, 128);
    assert_eq!(atlas.sprites.len(), 4);
    assert_no_overlap_and_contained(&atlas);
}

#[test]
fn image_without_pixels_is_placed() {
    let atlas = create_atlas(vec![image("nothing", 0, 0, 0)]).unwrap();
    assert_eq!(atlas.size, 1);
    assert_eq!(atlas.pixels, vec![0u8; 4]);
    assert_eq!(
        atlas.sprites[0].uv,
        UvRect { min_u: 1, min_v: 1, max_u: -1, max_v: -1, scale: 16 }
    );
}

#[test]
fn no_image_is_an_error() {
    assert_eq!(create_atlas(Vec::new()).err(), Some(PackError::EmptyInput));
}

#[test]
fn first_image_too_large_is_an_error() {
    let res = create_atlas(vec![image("line", 0x4000_0001, 0, 0)]);
    assert_eq!(res.err(), Some(PackError::DimensionOverflow));
}

#[test]
fn doubling_past_the_limit_is_an_error() {
    let res = create_atlas(vec![image("dot", 1, 1, 5), image("line", 0x4000_0001, 0, 0)]);
    assert_eq!(res.err(), Some(PackError::DimensionOverflow));
}

#[test]
fn growth_that_would_underflow_is_an_error() {
    let res = create_atlas(vec![
        image("a", 100, 50, 1),
        image("b", 120, 40, 2),
        image("c", 128, 30, 3),
        image("d", 129, 20, 4),
    ]);
    assert_eq!(res.err(), Some(PackError::GrowthUnderflow));
}

#[test]
fn sprite_name_is_relative_with_forward_slashes() {
    assert_eq!(create_sprite_name("assets\\ui\\button.png", "assets\\"), "ui/button.png");
    assert_eq!(create_sprite_name("/data/img/a.png", "/data/"), "img/a.png");
    assert_eq!(create_sprite_name("plain.png", ""), "plain.png");
}

#[test]
fn well_formed_means_four_bytes_for_each_pixel() {
    assert!(image("ok", 3, 5, 0).is_well_formed());
    assert!(image("none", 0, 7, 0).is_well_formed());
    let mut short = image("short", 3, 5, 0);
    short.pixels.pop();
    assert!(!short.is_well_formed());
    let mut long = image("long", 3, 5, 0);
    long.pixels.extend_from_slice(&[0, 0, 0, 0]);
    assert!(!long.is_well_formed());
}

#[test]
fn images_of_one_name_each_get_an_entry() {
    let atlas = create_atlas(vec![image("same", 8, 8, 1), image("same", 8, 4, 2)]).unwrap();
    assert_eq!(atlas.size, 16);
    assert_eq!(atlas.sprites.len(), 2);
    assert_eq!(rect(&atlas.sprites[0].uv), (0, 0, 8, 8));
    assert_eq!(rect(&atlas.sprites[1].uv), (8, 0, 8, 4));
    assert_eq!(atlas.sprites[0].name, "same");
    assert_eq!(atlas.sprites[1].name, "same");
}

#[test]
fn doubling_goes_on_until_the_image_fits() {
    let atlas = create_atlas(vec![image("a", 10, 10, 1), image("b", 60, 5, 2)]).unwrap();
    // The side starts at 16. Beside `a` there are 22 columns at side 32 and
    // 54 at side 64: only at side 128 does `b` fit.
    assert_eq!(atlas.size, 128);
    assert_eq!(rect(&entry(&atlas, "a").uv), (0, 0, 10, 10));
    assert_eq!(rect(&entry(&atlas, "b").uv), (10, 0, 60, 5));
    assert_no_overlap_and_contained(&atlas);
}

#[test]
fn sprite_name_loses_only_the_leading_root() {
    assert_eq!(create_sprite_name("img/img/a.png", "img/"), "img/a.png");
    assert_eq!(create_sprite_name("img/a.png", "img/"), "a.png");
    assert_eq!(create_sprite_name("img\\img\\a.png", "img\\"), "img/a.png");
}

#[test]
fn sprite_name_of_a_path_outside_the_root_is_the_whole_path() {
    assert_eq!(create_sprite_name("other/img/a.png", "img/"), "other/img/a.png");
    assert_eq!(create_sprite_name("a\\b", "a\\b\\c"), "a/b");
    assert_eq!(create_sprite_name("imx/a.png", "img/"), "imx/a.png");
    assert_eq!(create_sprite_name("", "img/"), "");
    assert_eq!(create_sprite_name("img/", "img/"), "");
}

#[test]
fn sprite_name_counts_characters_not_bytes() {
    assert_eq!(create_sprite_name("b\u{e9}\\\u{fc}.png", "b\u{e9}\\"), "\u{fc}.png");
}

#[test]
fn rectangles_that_touch_are_apart() {
    let a = Region { x: 0, y: 0, width: 4, height: 4 };
    let right = Region { x: 4, y: 0, width: 4, height: 4 };
    let below = Region { x: 0, y: 4, width: 8, height: 1 };
    let inside = Region { x: 3, y: 3, width: 1, height: 1 };
    let far = Region { x: 0xffff_ffff, y: 0xffff_ffff, width: 0xffff_ffff, height: 0xffff_ffff };
    assert!(a.is_apart_from(&right) && right.is_apart_from(&a));
    assert!(a.is_apart_from(&below) && below.is_apart_from(&right));
    assert!(!a.is_apart_from(&inside) && !inside.is_apart_from(&a));
    assert!(a.is_apart_from(&far));
    assert!(regions_apart(&vec![a, right, below, far]));
    assert!(!regions_apart(&vec![a, right, below, inside]));
    assert!(!regions_apart(&vec![inside, right, a]));
    assert!(regions_apart(&Vec::new()));
}

#[test]
fn regions_are_collected_in_the_order_of_the_walk() {
    let mut node = ImageNode::Empty { width: 64, height: 64 };
    assert!(node.try_insert(image("a", 64, 32, 0)).is_none());
    assert!(node.try_insert(image("b", 32, 32, 0)).is_none());
    assert!(node.try_insert(image("c", 16, 16, 0)).is_none());
    let mut regions = vec![Region { x: 9, y: 9, width: 9, height: 9 }];
    node.collect_regions(0, 0, &mut regions, 64);
    assert_eq!(
        regions,
        vec![
            Region { x: 9, y: 9, width: 9, height: 9 },
            Region { x: 0, y: 0, width: 64, height: 32 },
            Region { x: 0, y: 32, width: 32, height: 32 },
            Region { x: 32, y: 32, width: 16, height: 16 },
        ]
    );
}

#[test]
fn layout_with_two_images_on_one_pixel_is_refused() {
    let res = create_atlas(vec![
        image("a", 2, 3, 1),
        image("b", 5, 2, 2),
        image("c", 4, 2, 3),
        image("d", 3, 2, 4),
    ]);
    assert_eq!(res.err(), Some(PackError::RegionOverlap));
}

#[test]
fn overlap_after_a_doubling_is_refused() {
    let mut images = Vec::new();
    for name in ["big0", "big1", "big2"] {
        images.push(image(name, 100, 100, 1));
    }
    for name in ["s0", "s1", "s2", "s3", "s4", "s5"] {
        images.push(image(name, 50, 50, 2));
    }
    assert_eq!(create_atlas(images).err(), Some(PackError::RegionOverlap));
}

#[test]
fn stack_that_cannot_grow_is_an_underflow() {
    let images = vec![
        image("a", 100, 30, 1),
        image("b", 100, 30, 2),
        image("c", 100, 30, 3),
        image("d", 100, 30, 4),
        image("e", 100, 30, 5),
    ];
    assert_eq!(create_atlas(images).err(), Some(PackError::GrowthUnderflow));
}

#[test]
fn image_that_no_side_holds_is_an_overflow_wherever_it_stands() {
    let images = vec![
        image("a", 100, 30, 1),
        image("b", 100, 30, 2),
        image("c", 100, 30, 3),
        image("d", 100, 30, 4),
        image("line", 0x8000_0001, 0, 0),
    ];
    assert_eq!(create_atlas(images).err(), Some(PackError::DimensionOverflow));
    let only = vec![image("line", 0, 0x8000_0001, 0)];
    assert_eq!(create_atlas(only).err(), Some(PackError::DimensionOverflow));
}

#[test]
fn some_side_holds_an_image_up_to_two_to_the_thirty() {
    assert!(fits_some_side(&image("dot", 1, 1, 0)));
    assert!(fits_some_side(&image("none", 0, 0, 0)));
    assert!(!fits_some_side(&image("wide", 0x4000_0001, 0, 0)));
    assert!(!fits_some_side(&image("high", 0, 0x4000_0001, 0)));
}
