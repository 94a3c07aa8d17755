use render_2d::loader::compose::UvRect;
use render_2d::loader::image::Image;
use render_2d::loader::sprite::register_sprite;
use render_2d::loader::publish::publish_atlas;
use render_2d::loader::texture::{register_textures, PackError};
use render_2d::resource::shader::{ShaderDataType, ShaderInput};
use render_2d::resource::{Resource, ResourceClass, ResourceKey, Resources, TextureData, UvSprite};

fn image(name: &str, width: u32, height: u32, fill: u8) -> Image {
    Image {
        name: name.to_string(),
        width,
        height,
        pixels: vec![fill; (width as usize) * (height as usize) * 4],
    }
}

fn texture(side: u32) -> Resource {
    Resource::Texture(TextureData {
        width: side,
        height: side,
        data: vec![0u8; (side * side * 4) as usize],
    })
}

#[test]
fn new_registry_has_no_names() {
    let resources = Resources::new();
    assert_eq!(resources.find_resource_key("spritesheet"), None);
}

#[test]
fn register_type_reports_whether_the_class_was_new() {
    let mut resources = Resources::new();
    assert!(resources.register_type(ResourceClass::Texture));
    assert!(!resources.register_type(ResourceClass::Texture));
    assert!(resources.register_type(ResourceClass::Sprite));
    assert!(!resources.register_type(ResourceClass::Sprite));
}

#[test]
fn registering_again_keeps_what_was_added() {
    let mut resources = Resources::new();
    register_textures(&mut resources);
    let key = resources.add_resource(texture(2), "t".to_string());
    register_textures(&mut resources);
    register_sprite(&mut resources);
    assert_eq!(resources.get_resource_key("t"), key);
    assert!(matches!(resources.get_resource(&key), Resource::Texture(t) if t.width == 2));
}

#[test]
fn add_resource_counts_within_the_class() {
    let mut resources = Resources::new();
    register_textures(&mut resources);
    register_sprite(&mut resources);
    let a = resources.add_resource(texture(1), "a".to_string());
    let b = resources.add_resource(texture(2), "b".to_string());
    let uv = UvRect { min_u: 1, min_v: 1, max_u: 15, max_v: 15, scale: 16 };
    let s = resources.add_resource(Resource::Sprite(UvSprite { uv, texture: a }), "s".to_string());
    assert_eq!(a, ResourceKey { class: ResourceClass::Texture, id: 0 });
    assert_eq!(b, ResourceKey { class: ResourceClass::Texture, id: 1 });
    assert_eq!(s, ResourceKey { class: ResourceClass::Sprite, id: 0 });
    assert_eq!(resources.get_resource_key("a"), a);
    assert_eq!(resources.get_resource_key("b"), b);
    assert_eq!(resources.get_resource_key("s"), s);
    assert!(matches!(resources.get_resource(&b), Resource::Texture(t) if t.width == 2));
    assert!(matches!(resources.get_resource(&s), Resource::Sprite(sp) if sp.uv == uv && sp.texture == a));
    assert_eq!(resources.get_resource(&s).class(), ResourceClass::Sprite);
}

#[test]
fn a_name_added_again_is_bound_to_the_later_key() {
    let mut resources = Resources::new();
    register_textures(&mut resources);
    let first = resources.add_resource(texture(1), "same".to_string());
    let second = resources.add_resource(texture(2), "same".to_string());
    assert_ne!(first, second);
    assert_eq!(resources.find_resource_key("same"), Some(second));
    assert!(matches!(resources.get_resource(&first), Resource::Texture(t) if t.width == 1));
    assert_eq!(resources.find_resource_key("other"), None);
}

#[test]
fn atlas_is_published_with_its_sprites() {
    let mut resources = Resources::new();
    register_textures(&mut resources);
    register_sprite(&mut resources);
    let earlier = resources.add_resource(texture(1), "earlier".to_string());
    let key = publish_atlas(
        vec![image("b", 32, 32, 2), image("a", 64, 32, 1), image("c", 16, 16, 3)],
        &mut resources,
    )
    .unwrap();
    assert_eq!(key, ResourceKey { class: ResourceClass::Texture, id: 1 });
    assert_eq!(resources.get_resource_key("spritesheet"), key);
    assert_eq!(resources.get_resource_key("earlier"), earlier);
    match resources.get_resource(&key) {
        Resource::Texture(t) => {
            assert_eq!((t.width, t.height), (64, 64));
            assert_eq!(t.data.len(), 64 * 64 * 4);
            assert_eq!(t.data[0], 1);
            assert_eq!(t.data[(32 * 64) * 4], 2);
            assert_eq!(t.data[(32 * 64 + 32) * 4], 3);
            assert_eq!(t.data[(63 * 64 + 63) * 4], 0);
        }
        _ => panic!("the atlas is no sprite"),
    }
    let a = resources.get_resource_key("a");
    let b = resources.get_resource_key("b");
    let c = resources.get_resource_key("c");
    assert_eq!(a, ResourceKey { class: ResourceClass::Sprite, id: 0 });
    assert_eq!(b, ResourceKey { class: ResourceClass::Sprite, id: 1 });
    assert_eq!(c, ResourceKey { class: ResourceClass::Sprite, id: 2 });
    match resources.get_resource(&b) {
        Resource::Sprite(s) => {
            assert_eq!(s.texture, key);
            assert_eq!(s.uv, UvRect { min_u: 1, min_v: 513, max_u: 511, max_v: 1023, scale: 1024 });
        }
        _ => panic!("the sprite is no texture"),
    }
}

#[test]
fn failed_packing_leaves_the_registry_alone() {
    let mut resources = Resources::new();
    register_textures(&mut resources);
    register_sprite(&mut resources);
    assert_eq!(publish_atlas(Vec::new(), &mut resources).err(), Some(PackError::EmptyInput));
    assert_eq!(resources.find_resource_key("spritesheet"), None);
    let key = resources.add_resource(texture(1), "t".to_string());
    assert_eq!(key.id, 0);
}

#[test]
fn shader_input_holds_its_type() {
    let input = ShaderInput { id: 3, data_type: ShaderDataType::Mat4F };
    assert_eq!(input.id, 3);
    assert_eq!(input.data_type, ShaderDataType::Mat4F);
    assert_ne!(ShaderDataType::Int, ShaderDataType::Vec2F);
}

#[test]
fn has_type_and_has_resource_follow_the_registry() {
    let mut resources = Resources::new();
    let key = ResourceKey { class: ResourceClass::Texture, id: 0 };
    assert!(!resources.has_type(ResourceClass::Texture));
    assert!(!resources.has_resource(&key));
    register_textures(&mut resources);
    assert!(resources.has_type(ResourceClass::Texture));
    assert!(!resources.has_type(ResourceClass::Sprite));
    assert!(!resources.has_resource(&key));
    assert_eq!(resources.add_resource(texture(1), "t".to_string()), key);
    assert!(resources.has_resource(&key));
    assert!(!resources.has_resource(&ResourceKey { class: ResourceClass::Texture, id: 1 }));
    assert!(!resources.has_resource(&ResourceKey { class: ResourceClass::Sprite, id: 0 }));
}

#[test]
fn handles_are_a_class_of_their_own() {
    let mut resources = Resources::new();
    register_textures(&mut resources);
    assert!(!resources.has_type(ResourceClass::Handle));
    assert!(resources.register_type(ResourceClass::Handle));
    assert!(!resources.register_type(ResourceClass::Handle));
    let t = resources.add_resource(texture(1), "t".to_string());
    let window = resources.add_resource(Resource::Handle(7), "window_resource".to_string());
    let shader = resources.add_resource(Resource::Handle(3), "shader".to_string());
    assert_eq!(t, ResourceKey { class: ResourceClass::Texture, id: 0 });
    assert_eq!(window, ResourceKey { class: ResourceClass::Handle, id: 0 });
    assert_eq!(shader, ResourceKey { class: ResourceClass::Handle, id: 1 });
    assert_eq!(resources.get_resource_key("shader"), shader);
    assert!(matches!(resources.get_resource(&shader), Resource::Handle(3)));
    assert!(matches!(resources.get_resource(&window), Resource::Handle(7)));
    assert_eq!(resources.get_resource(&window).class(), ResourceClass::Handle);
    assert!(resources.has_resource(&shader));
    assert!(!resources.has_resource(&ResourceKey { class: ResourceClass::Handle, id: 2 }));
}
