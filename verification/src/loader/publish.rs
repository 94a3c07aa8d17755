use vstd::prelude::*;
use crate::loader::compose::uv_rect;
use crate::loader::image::Image;
use crate::loader::node::ImageNode;
use crate::loader::node::Placement;
use crate::loader::texture::all_wf;
use crate::loader::texture::blank;
use crate::loader::texture::create_atlas;
use crate::loader::texture::packed;
use crate::loader::texture::Atlas;
use crate::loader::texture::PackError;
use crate::resource::Resource;
use crate::resource::ResourceClass;
use crate::resource::ResourceKey;
use crate::resource::Resources;
use crate::resource::TextureData;
use crate::resource::UvSprite;

verus! {

/// The names after each placed image was bound, in the order of the walk, to
/// the key of its sprite; the sprites take the indices from `first` on.
pub open spec fn with_sprites(
    names: Map<Seq<char>, ResourceKey>,
    ps: Seq<Placement>,
    first: int,
) -> Map<Seq<char>, ResourceKey>
    decreases ps.len(),
{
    if ps.len() == 0 {
        names
    } else {
        with_sprites(names, ps.drop_last(), first).insert(
            ps.last().name,
            ResourceKey { class: ResourceClass::Sprite, id: (first + ps.len() - 1) as usize },
        )
    }
}

/// The sprite that shows a placed image out of the atlas texture under `key`.
pub open spec fn sprite_of(p: Placement, size: int, key: ResourceKey) -> Resource {
    Resource::Sprite(UvSprite { uv: uv_rect(p, size), texture: key })
}

/// The registry `after` is the registry `before` with the atlas of `root`
/// added under the name `spritesheet` and the key `key`, and with one sprite
/// for each image added under the name of the image.
pub open spec fn publishes(
    before: Resources,
    after: Resources,
    key: ResourceKey,
    root: ImageNode,
    size: int,
) -> bool {
    let ps = root.placements(0, 0);
    &&& before.group(ResourceClass::Texture) matches Some(old_textures)
    &&& before.group(ResourceClass::Sprite) matches Some(old_sprites)
    &&& after.group(ResourceClass::Texture) matches Some(textures)
    &&& after.group(ResourceClass::Sprite) matches Some(sprites)
    &&& after.group(ResourceClass::Handle) == before.group(ResourceClass::Handle)
    &&& key == ResourceKey { class: ResourceClass::Texture, id: old_textures.len() as usize }
    &&& textures.len() == old_textures.len() + 1
    &&& textures.take(old_textures.len() as int) == old_textures
    &&& textures.last() matches Resource::Texture(t)
    &&& t.width == size
    &&& t.height == size
    &&& t.data@ == root.composited(0, 0, blank(size), size)
    &&& sprites.len() == old_sprites.len() + ps.len()
    &&& sprites.take(old_sprites.len() as int) == old_sprites
    &&& forall|i: int|
        0 <= i < ps.len() ==> #[trigger] sprites[old_sprites.len() + i] == sprite_of(
            ps[i],
            size,
            key,
        )
    &&& after.names() == with_sprites(
        before.names().insert("spritesheet"@, key),
        ps,
        old_sprites.len() as int,
    )
}

/// What publishing the atlas of `images` does to the registry and returns:
/// on success the registry `after` publishes the atlas under the key
/// returned; on failure the error is that of the packing and the registry is
/// as it was.
pub open spec fn published(
    images: Seq<Image>,
    res: Result<ResourceKey, PackError>,
    before: Resources,
    after: Resources,
) -> bool {
    match res {
        Ok(key) => {
            &&& packed(images) matches Ok(fin)
            &&& publishes(before, after, key, fin.0, fin.1)
        },
        Err(e) => {
            &&& packed(images) == Err::<(ImageNode, int), PackError>(e)
            &&& after == before
        },
    }
}

/// Packs the images into an atlas and publishes it: the atlas texture under
/// the name `spritesheet`, and for each image a sprite under the image's name.
/// Returns the key of the atlas texture. Where packing fails the registry is
/// left as it was.
pub fn publish_atlas(images: Vec<Image>, resources: &mut Resources) -> (res: Result<
    ResourceKey,
    PackError,
>)
    requires
        all_wf(images@),
        old(resources).wf(),
        old(resources).group(ResourceClass::Texture) is Some,
        old(resources).group(ResourceClass::Sprite) is Some,
    ensures
        final(resources).wf(),
        published(images@, res, *old(resources), *final(resources)),
{
    let ghost before = *resources;
    let ghost fin = packed(images@);
    let atlas = match create_atlas(images) {
        Ok(atlas) => atlas,
        Err(e) => {
            return Err(e);
        },
    };
    let ghost root = fin->Ok_0.0;
    let ghost ps = root.placements(0, 0);
    let ghost old_textures = before.group(ResourceClass::Texture).unwrap();
    let ghost old_sprites = before.group(ResourceClass::Sprite).unwrap();
    let Atlas { size, pixels, sprites } = atlas;
    let key = resources.add_resource(
        Resource::Texture(TextureData { width: size, height: size, data: pixels }),
        "spritesheet".to_owned(),
    );
    let ghost base = resources.names();
    let ghost textures = resources.group(ResourceClass::Texture).unwrap();
    proof {
        assert(textures.take(old_textures.len() as int) =~= old_textures);
        assert(old_sprites.take(old_sprites.len() as int) =~= old_sprites);
        assert(ps.take(0).len() == 0);
    }
    let mut i: usize = 0;
    while i < sprites.len()
        invariant
            i <= sprites@.len() == ps.len(),
            forall|k: int|
                0 <= k < ps.len() ==> (#[trigger] sprites@[k]).locates(ps[k], size as int),
            resources.wf(),
            resources.group(ResourceClass::Texture) == Some(textures),
            resources.group(ResourceClass::Handle) == before.group(ResourceClass::Handle),
            resources.group(ResourceClass::Sprite) matches Some(now) && now.len()
                == old_sprites.len() + i && now.take(old_sprites.len() as int) == old_sprites
                && forall|k: int|
                0 <= k < i ==> #[trigger] now[old_sprites.len() + k] == sprite_of(
                    ps[k],
                    size as int,
                    key,
                ),
            resources.names() == with_sprites(base, ps.take(i as int), old_sprites.len() as int),
        decreases sprites@.len() - i,
    {
        let ghost prior = resources.group(ResourceClass::Sprite).unwrap();
        let name = sprites[i].name.clone();
        let uv = sprites[i].uv;
        let added = resources.add_resource(Resource::Sprite(UvSprite { uv, texture: key }), name);
        proof {
            let now = resources.group(ResourceClass::Sprite).unwrap();
            assert(now.take(old_sprites.len() as int) =~= prior.take(old_sprites.len() as int));
            assert(sprites@[i as int].locates(ps[i as int], size as int));
            assert forall|k: int| 0 <= k < i + 1 implies #[trigger] now[old_sprites.len() + k]
                == sprite_of(ps[k], size as int, key) by {
                if k < i {
                    assert(now[old_sprites.len() + k] == prior[old_sprites.len() + k]);
                }
            }
            assert(ps.take(i + 1).drop_last() =~= ps.take(i as int));
            assert(ps.take(i + 1).last() == ps[i as int]);
        }
        i = i + 1;
    }
    proof {
        assert(ps.take(i as int) =~= ps);
    }
    Ok(key)
}

} // verus!
