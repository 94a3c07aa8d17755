use vstd::prelude::*;
use crate::loader::image::Image;
use crate::loader::texture::create_sprite_name;
use crate::loader::publish::publish_atlas;
use crate::loader::publish::published;
use crate::loader::texture::sprite_name;
use crate::loader::texture::PackError;
use crate::resource::Resource;
use crate::resource::ResourceClass;
use crate::resource::ResourceKey;
use crate::resource::Resources;
use crate::resource::TextureData;

verus! {

/// The error type of the PNG decoder, `lodepng::Error`. Nothing is known of
/// its values.
#[verifier::external_type_specification]
#[verifier::external_body]
pub struct ExDecoderError(lodepng::Error);

/// What `lodepng::decode32` makes of a file's bytes: the width, the height and
/// the RGBA bytes of the image, pixel by pixel, or `None` where it reports an
/// error.
pub uninterp spec fn decoded_png(bytes: Seq<u8>) -> Option<(int, int, Seq<u8>)>;

/// Calls `lodepng::decode32` and lays the pixels it returns out as bytes, four
/// for each pixel in the order red, green, blue, alpha. The contract claims
/// only that the outcome is the one `decoded_png` names for these bytes.
#[verifier::external_body]
fn decode_rgba(bytes: &[u8]) -> (res: Result<(usize, usize, Vec<u8>), lodepng::Error>)
    ensures
        match res {
            Ok(raw) => decoded_png(bytes@) == Some((raw.0 as int, raw.1 as int, raw.2@)),
            Err(_) => decoded_png(bytes@) is None,
        },
{
    match lodepng::decode32(bytes) {
        Ok(bitmap) => Ok(
            (
                bitmap.width,
                bitmap.height,
                bitmap.buffer.iter().flat_map(|p| [p.r, p.g, p.b, p.a]).collect(),
            ),
        ),
        Err(e) => Err(e),
    }
}

/// Converts the decoder's error into its code, as `lodepng::ErrorCode::from`
/// does. The error holds a number that is not zero, and the code is that
/// number.
#[verifier::external_body]
fn error_code(e: lodepng::Error) -> (res: u32)
    ensures
        res != 0,
{
    lodepng::ErrorCode::from(e).0
}

/// The extent fits an image and the buffer holds four bytes for each pixel.
pub open spec fn well_sized(width: int, height: int, pixels: Seq<u8>) -> bool {
    &&& 0 <= width <= u32::MAX
    &&& 0 <= height <= u32::MAX
    &&& pixels.len() == width * height * 4
}

/// Makes an image out of what the decoder returned, if it is well sized.
pub fn image_from_decoded(name: String, width: usize, height: usize, pixels: Vec<u8>) -> (res:
    Result<Image, PackError>)
    ensures
        res is Ok <==> well_sized(width as int, height as int, pixels@),
        res matches Ok(image) ==> image.wf() && image.name == name && image.width == width
            && image.height == height && image.pixels == pixels,
        res matches Err(e) ==> e == PackError::DecodeFailure(0),
{
    if width > 0xffff_ffff || height > 0xffff_ffff {
        return Err(PackError::DecodeFailure(0));
    }
    let image = Image { name, width: width as u32, height: height as u32, pixels };
    if image.is_well_formed() {
        Ok(image)
    } else {
        Err(PackError::DecodeFailure(0))
    }
}

/// Decodes the bytes of a PNG file into an image of the given name.
pub fn decode_image(name: String, bytes: &[u8]) -> (res: Result<Image, PackError>)
    ensures
        res is Ok <==> (decoded_png(bytes@) matches Some(raw) && well_sized(raw.0, raw.1, raw.2)),
        res matches Ok(image) ==> image.wf() && image.name == name && decoded_png(bytes@) == Some(
            (image.width as int, image.height as int, image.pixels@),
        ),
        res matches Err(e) ==> e is DecodeFailure,
        res matches Err(e) ==> (e == PackError::DecodeFailure(0) <==> decoded_png(bytes@) is Some),
{
    match decode_rgba(bytes) {
        Ok(raw) => image_from_decoded(name, raw.0, raw.1, raw.2),
        Err(e) => Err(PackError::DecodeFailure(error_code(e))),
    }
}

/// Decodes the file found at `path` under `root` and appends the image, named
/// by its path relative to `root`, to the images collected so far. Where the
/// file cannot be decoded nothing is appended.
pub fn load_image(root: &str, path: &str, bytes: &[u8], images: &mut Vec<Image>) -> (res: Result<
    (),
    PackError,
>)
    ensures
        res is Ok <==> (decoded_png(bytes@) matches Some(raw) && well_sized(raw.0, raw.1, raw.2)),
        res is Ok ==> final(images)@.len() == old(images)@.len() + 1 && final(images)@.drop_last()
            == old(images)@ && final(images)@.last().wf() && final(images)@.last().name@
            == sprite_name(path@, root@) && decoded_png(bytes@) == Some(
            (
                final(images)@.last().width as int,
                final(images)@.last().height as int,
                final(images)@.last().pixels@,
            ),
        ),
        res matches Err(e) ==> e is DecodeFailure && final(images)@ == old(images)@,
{
    let name = create_sprite_name(path, root);
    match decode_image(name, bytes) {
        Ok(image) => {
            let ghost before = images@;
            images.push(image);
            assert(images@.drop_last() =~= before);
            Ok(())
        },
        Err(e) => Err(e),
    }
}

/// Decodes the file found at `path` and adds it to the registry as a texture,
/// named by its path relative to `root`. Where the file cannot be decoded the
/// registry is left as it was.
pub fn load_texture(path: &str, root: &str, bytes: &[u8], resources: &mut Resources) -> (res:
    Result<ResourceKey, PackError>)
    requires
        old(resources).wf(),
        old(resources).group(ResourceClass::Texture) is Some,
    ensures
        final(resources).wf(),
        res is Ok <==> (decoded_png(bytes@) matches Some(raw) && well_sized(raw.0, raw.1, raw.2)),
        res matches Ok(key) ==> {
            let textures = final(resources).group(ResourceClass::Texture).unwrap();
            &&& key.class == ResourceClass::Texture
            &&& key.id == old(resources).group(ResourceClass::Texture).unwrap().len()
            &&& textures.len() == key.id + 1
            &&& textures.drop_last() == old(resources).group(ResourceClass::Texture).unwrap()
            &&& textures.last() matches Resource::Texture(t)
            &&& decoded_png(bytes@) == Some((t.width as int, t.height as int, t.data@))
            &&& final(resources).group(ResourceClass::Sprite) == old(resources).group(
                ResourceClass::Sprite,
            )
            &&& final(resources).group(ResourceClass::Handle) == old(resources).group(
                ResourceClass::Handle,
            )
            &&& final(resources).names() == old(resources).names().insert(
                sprite_name(path@, root@),
                key,
            )
        },
        res matches Err(e) ==> e is DecodeFailure && *final(resources) == *old(
            resources,
        ),
{
    let name = create_sprite_name(path, root);
    let label = name.clone();
    match decode_image(name, bytes) {
        Ok(image) => {
            let ghost before = resources.group(ResourceClass::Texture).unwrap();
            let Image { name: _, width, height, pixels } = image;
            let key = resources.add_resource(
                Resource::Texture(TextureData { width, height, data: pixels }),
                label,
            );
            proof {
                let textures = resources.group(ResourceClass::Texture).unwrap();
                assert(textures.drop_last() =~= before);
            }
            Ok(key)
        },
        Err(e) => Err(e),
    }
}

/// A file as it was read: its path and its bytes.
pub struct SourceFile {
    pub path: String,
    pub bytes: Vec<u8>,
}

/// The decoder makes a well sized image of the bytes.
pub open spec fn decodable(bytes: Seq<u8>) -> bool {
    decoded_png(bytes) matches Some(raw) && well_sized(raw.0, raw.1, raw.2)
}

/// Every file of the sequence can be decoded.
pub open spec fn all_decodable(files: Seq<SourceFile>) -> bool {
    forall|i: int| 0 <= i < files.len() ==> decodable((#[trigger] files[i]).bytes@)
}

/// The image is what the decoder makes of the file, under the file's path
/// relative to `root`.
pub open spec fn image_of_file(image: Image, root: Seq<char>, file: SourceFile) -> bool {
    &&& image.wf()
    &&& image.name@ == sprite_name(file.path@, root)
    &&& decoded_png(file.bytes@) == Some(
        (image.width as int, image.height as int, image.pixels@),
    )
}

/// The images are those of the files, one for one and in the same order.
pub open spec fn images_of_files(images: Seq<Image>, root: Seq<char>, files: Seq<SourceFile>) -> bool {
    &&& images.len() == files.len()
    &&& forall|i: int|
        0 <= i < files.len() ==> image_of_file(#[trigger] images[i], root, files[i])
}

/// Decodes the files found under `root`, in the order given. One file that
/// cannot be decoded fails the whole.
pub fn load_images(root: &str, files: &Vec<SourceFile>) -> (res: Result<Vec<Image>, PackError>)
    ensures
        res is Ok <==> all_decodable(files@),
        res matches Ok(images) ==> images_of_files(images@, root@, files@),
        res matches Err(e) ==> e is DecodeFailure,
{
    let mut images: Vec<Image> = Vec::new();
    let mut i: usize = 0;
    while i < files.len()
        invariant
            i <= files@.len(),
            images_of_files(images@, root@, files@.take(i as int)),
            all_decodable(files@.take(i as int)),
        decreases files@.len() - i,
    {
        let ghost before = images@;
        match load_image(root, files[i].path.as_str(), files[i].bytes.as_slice(), &mut images) {
            Ok(_) => {},
            Err(e) => {
                return Err(e);
            },
        }
        proof {
            let upto = files@.take(i + 1);
            assert forall|k: int| 0 <= k < upto.len() implies image_of_file(
                #[trigger] images@[k],
                root@,
                upto[k],
            ) by {
                if k < i {
                    assert(images@[k] == before[k]);
                    assert(upto[k] == files@.take(i as int)[k]);
                }
            }
            assert forall|k: int| 0 <= k < upto.len() implies decodable(
                (#[trigger] upto[k]).bytes@,
            ) by {
                if k < i {
                    assert(upto[k] == files@.take(i as int)[k]);
                }
            }
        }
        i = i + 1;
    }
    proof {
        assert(files@.take(i as int) =~= files@);
    }
    Ok(images)
}

/// The result is a failure to decode.
pub open spec fn failed_to_decode(res: Result<ResourceKey, PackError>) -> bool {
    res matches Err(e) && e is DecodeFailure
}

/// Loads every file found under `root` and publishes the atlas of their
/// images: the atlas under the name `spritesheet`, and a sprite for each image
/// under the path of its file relative to `root`. Where a file cannot be
/// decoded, or the images cannot be packed, the registry is left as it was.
pub fn load_as_atlas(root: &str, files: &Vec<SourceFile>, resources: &mut Resources) -> (res:
    Result<ResourceKey, PackError>)
    requires
        old(resources).wf(),
        old(resources).group(ResourceClass::Texture) is Some,
        old(resources).group(ResourceClass::Sprite) is Some,
    ensures
        final(resources).wf(),
        !all_decodable(files@) ==> failed_to_decode(res) && *final(resources) == *old(resources),
        all_decodable(files@) ==> exists|images: Seq<Image>| #[trigger]
            images_of_files(images, root@, files@) && published(
                images,
                res,
                *old(resources),
                *final(resources),
            ),
{
    let images = match load_images(root, files) {
        Ok(images) => images,
        Err(e) => {
            return Err(e);
        },
    };
    let ghost collected = images@;
    let res = publish_atlas(images, resources);
    proof {
        assert(images_of_files(collected, root@, files@));
    }
    res
}

} // verus!
