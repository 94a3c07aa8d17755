use vstd::prelude::*;
use crate::loader::compose::SpriteEntry;
use crate::loader::image::Image;
use crate::loader::image::lemma_packing_order_keeps;
use crate::loader::image::packing_order;
use crate::loader::image::sort_images;
use crate::loader::node::ImageNode;
use crate::loader::node::Placement;
use crate::loader::node::Region;
use crate::loader::node::larger;
use crate::loader::node::pairwise_disjoint;
use crate::resource::Resource;
use crate::resource::ResourceClass;
use crate::resource::Resources;

verus! {

/// Why no atlas was built.
#[derive(Clone, Copy, PartialEq, Eq, Structural, Debug)]
pub enum PackError {
    /// The bytes of an image could not be decoded. It holds the decoder's
    /// error code, or 0 where the decoder gave an image whose pixel buffer
    /// does not match its extent.
    DecodeFailure(u32),
    /// There was no image to pack.
    EmptyInput,
    /// An image is wider or higher than any side that can be held, or the
    /// atlas would have to grow past such a side.
    DimensionOverflow,
    /// Doubling the side leaves some region of the tree less room than the
    /// image it holds is wide or high.
    GrowthUnderflow,
    /// After a doubling two images were placed on the same pixels.
    RegionOverlap,
}

/// The finished atlas: a square of side `size`, its RGBA pixels row by row,
/// and the texture coordinates of every image.
#[derive(Clone, Debug)]
pub struct Atlas {
    pub size: u32,
    pub pixels: Vec<u8>,
    pub sprites: Vec<SpriteEntry>,
}

/// `n` is one of 1, 2, 4, 8, ...
pub open spec fn is_power_of_two(n: int) -> bool
    decreases n,
{
    n == 1 || (n > 1 && n % 2 == 0 && is_power_of_two(n / 2))
}

/// The smallest power of two that is at least `n`.
pub open spec fn containing_square(n: int) -> int
    decreases n,
{
    if n <= 1 {
        1
    } else {
        2 * containing_square(n - n / 2)
    }
}

/// `containing_square(n)` is a power of two, at least `n`, and its half is
/// less than `n`.
pub proof fn lemma_containing_square(n: int)
    ensures
        is_power_of_two(containing_square(n)),
        containing_square(n) >= n,
        containing_square(n) >= 1,
        n > 1 ==> containing_square(n) / 2 < n,
        n <= 1 ==> containing_square(n) == 1,
    decreases n,
{
    if n > 1 {
        lemma_containing_square(n - n / 2);
        let r = containing_square(n - n / 2);
        assert((2 * r) / 2 == r);
    }
}

/// The smallest power of two that is at least `size`.
pub fn get_minimum_containing_square(size: u32) -> (res: u32)
    requires
        size <= 0x8000_0000,
    ensures
        res == containing_square(size as int),
        is_power_of_two(res as int),
        res >= size,
        size > 1 ==> res / 2 < size,
        size <= 1 ==> res == 1,
    decreases size,
{
    proof {
        lemma_containing_square(size as int);
    }
    if size <= 1 {
        1
    } else {
        proof {
            lemma_containing_square(size - size / 2);
        }
        let half: u32 = get_minimum_containing_square(size - size / 2);
        2 * half
    }
}

/// A side of at most 2^30 pixels whose RGBA buffer can be addressed.
pub open spec fn side_fits(size: int) -> bool {
    size <= 0x4000_0000 && size * size * 4 <= usize::MAX
}

/// Decides whether an atlas of this side can be held.
pub fn check_side(size: u32) -> (res: bool)
    ensures
        res == side_fits(size as int),
{
    if size > 0x4000_0000 {
        false
    } else {
        assert(size * size * 4 <= 0x4000_0000_0000_0000) by (nonlinear_arith)
            requires
                0 <= size <= 0x4000_0000,
        ;
        let wide: u64 = size as u64;
        let bytes: u64 = wide * wide * 4;
        bytes <= usize::MAX as u64
    }
}

/// The tree and the side after `img` was placed, the side doubled and the
/// tree grown in both directions as often as it took.
pub open spec fn placed(root: ImageNode, size: int, img: Image) -> Result<
    (ImageNode, int),
    PackError,
>
    decreases 0x1_0000_0000 - size,
    when size >= 1
{
    if root.accepts(img.width, img.height) {
        Ok((root.inserted(img), size))
    } else if !side_fits(2 * size) {
        Err(PackError::DimensionOverflow)
    } else if !root.width_growable(2 * size) {
        Err(PackError::GrowthUnderflow)
    } else if !root.grown_width(2 * size).height_growable(2 * size) {
        Err(PackError::GrowthUnderflow)
    } else {
        placed(root.grown_width(2 * size).grown_height(2 * size), 2 * size, img)
    }
}

/// The tree and the side after the images were placed one after the other.
pub open spec fn placed_all(root: ImageNode, size: int, imgs: Seq<Image>) -> Result<
    (ImageNode, int),
    PackError,
>
    decreases imgs.len(),
{
    if imgs.len() == 0 {
        Ok((root, size))
    } else {
        match placed(root, size, imgs[0]) {
            Ok((next, side)) => placed_all(next, side, imgs.drop_first()),
            Err(e) => Err(e),
        }
    }
}

/// The side the atlas starts with: the smallest power of two that holds the
/// first image of the packing order.
pub open spec fn seed_side(images: Seq<Image>) -> int {
    let first = packing_order(images)[0];
    containing_square(larger(first.width as int, first.height as int))
}

/// Some atlas side holds the image: the smallest power of two that is at
/// least as large as the image is wide and high is a side that fits.
pub open spec fn holdable(image: Image) -> bool {
    side_fits(containing_square(larger(image.width as int, image.height as int)))
}

/// An image that is wider or higher than 2^30 pixels is held by no side.
pub proof fn lemma_too_large_not_holdable(image: Image)
    requires
        image.width > 0x4000_0000 || image.height > 0x4000_0000,
    ensures
        !holdable(image),
{
    lemma_containing_square(larger(image.width as int, image.height as int));
}

/// Every image of the sequence can be held by some atlas side.
pub open spec fn all_holdable(images: Seq<Image>) -> bool {
    forall|i: int| #![trigger images[i]] 0 <= i < images.len() ==> holdable(images[i])
}

/// The tree and the side after the images, which are not none, were placed
/// in packing order into the square of the seed side.
pub open spec fn laid_out(images: Seq<Image>) -> Result<(ImageNode, int), PackError> {
    placed_all(
        ImageNode::Empty { width: seed_side(images) as u32, height: seed_side(images) as u32 },
        seed_side(images),
        packing_order(images),
    )
}

/// Every image was placed, and the side was doubled on the way.
pub open spec fn side_doubled(images: Seq<Image>) -> bool {
    laid_out(images) matches Ok(fin) && fin.1 > seed_side(images)
}

/// The tree and the side that packing `images` ends with. An image that no
/// side can hold is refused before anything is placed, and so is a layout in
/// which two images share a pixel once all are placed.
pub open spec fn packed(images: Seq<Image>) -> Result<(ImageNode, int), PackError> {
    if images.len() == 0 {
        Err(PackError::EmptyInput)
    } else if !all_holdable(images) {
        Err(PackError::DimensionOverflow)
    } else if !side_fits(seed_side(images)) {
        Err(PackError::DimensionOverflow)
    } else {
        match laid_out(images) {
            Ok(fin) => if pairwise_disjoint(fin.0.placements(0, 0)) {
                Ok(fin)
            } else {
                Err(PackError::RegionOverlap)
            },
            Err(e) => Err(e),
        }
    }
}

/// Every placement lies inside the square of side `size` at the origin.
pub open spec fn all_inside(ps: Seq<Placement>, size: int) -> bool {
    forall|i: int| #![trigger ps[i]] 0 <= i < ps.len() ==> ps[i].inside(0, 0, size, size)
}

/// A buffer of `size * size` transparent black pixels.
pub open spec fn blank(size: int) -> Seq<u8> {
    Seq::new((size * size * 4) as nat, |i: int| 0u8)
}

impl Atlas {
    /// The atlas is what the walk over `root` composes on a blank square of
    /// side `size`: its pixels, and one entry for each image, in the order of
    /// the walk.
    pub open spec fn shows(&self, root: ImageNode, size: int) -> bool {
        &&& self.size == size
        &&& self.pixels@ == root.composited(0, 0, blank(size), size)
        &&& self.sprites@.len() == root.placements(0, 0).len()
        &&& forall|i: int|
            0 <= i < self.sprites@.len() ==> (#[trigger] self.sprites@[i]).locates(
                root.placements(0, 0)[i],
                size,
            )
    }
}

/// Every image of the sequence carries a pixel buffer of its own extent.
pub open spec fn all_wf(images: Seq<Image>) -> bool {
    forall|i: int| #![trigger images[i]] 0 <= i < images.len() ==> images[i].wf()
}

/// Decides whether some atlas side holds the image.
pub fn fits_some_side(image: &Image) -> (res: bool)
    ensures
        res == holdable(*image),
{
    let extent: u32 = if image.width >= image.height {
        image.width
    } else {
        image.height
    };
    proof {
        lemma_containing_square(extent as int);
    }
    if extent > 0x4000_0000 {
        false
    } else {
        check_side(get_minimum_containing_square(extent))
    }
}

/// Decides whether no two of the rectangles share a pixel.
pub fn regions_apart(regions: &Vec<Region>) -> (res: bool)
    ensures
        res == forall|i: int, j: int|
            #![trigger regions@[i], regions@[j]]
            0 <= i < j < regions@.len() ==> regions@[i].apart_from(&regions@[j]),
{
    let mut j: usize = 0;
    while j < regions.len()
        invariant
            j <= regions@.len(),
            forall|a: int, b: int|
                #![trigger regions@[a], regions@[b]]
                0 <= a < b < j ==> regions@[a].apart_from(&regions@[b]),
        decreases regions@.len() - j,
    {
        let mut i: usize = 0;
        while i < j
            invariant
                i <= j < regions@.len(),
                forall|a: int|
                    #![trigger regions@[a]]
                    0 <= a < i ==> regions@[a].apart_from(&regions@[j as int]),
            decreases j - i,
        {
            if !regions[i].is_apart_from(&regions[j]) {
                return false;
            }
            i = i + 1;
        }
        j = j + 1;
    }
    true
}

/// Packs the images into one square atlas: sorts them into packing order,
/// places them one by one, doubling the side whenever one does not fit, and
/// composes the pixels and the texture coordinates.
///
/// The side is a power of two, every image lies inside the square, the atlas
/// holds each image once, and no two images share a pixel. After a doubling
/// the free regions beside and below an image may reach into each other; a
/// layout in which two images then came to lie on the same pixels is refused
/// with `RegionOverlap`. While the side never doubled that cannot happen.
pub fn create_atlas(images: Vec<Image>) -> (res: Result<Atlas, PackError>)
    requires
        all_wf(images@),
    ensures
        match res {
            Ok(atlas) => {
                &&& packed(images@) matches Ok(fin)
                &&& atlas.shows(fin.0, fin.1)
                &&& is_power_of_two(atlas.size as int)
                &&& atlas.size >= seed_side(images@)
                &&& atlas.pixels@.len() == atlas.size * atlas.size * 4
                &&& atlas.sprites@.len() == images@.len()
                &&& fin.0.images().to_multiset() == images@.to_multiset()
                &&& all_inside(fin.0.placements(0, 0), atlas.size as int)
                &&& pairwise_disjoint(fin.0.placements(0, 0))
                &&& atlas.size == seed_side(images@) ==> fin.0.partitions(fin.1, fin.1)
            },
            Err(e) => {
                &&& packed(images@) == Err::<(ImageNode, int), PackError>(e)
                &&& e == PackError::RegionOverlap ==> side_doubled(images@)
            },
        },
{
    if images.len() == 0 {
        return Err(PackError::EmptyInput);
    }
    let ghost input = images@;
    let mut checked: usize = 0;
    while checked < images.len()
        invariant
            checked <= images@.len(),
            forall|i: int| #![trigger images@[i]] 0 <= i < checked ==> holdable(images@[i]),
        decreases images@.len() - checked,
    {
        if !fits_some_side(&images[checked]) {
            return Err(PackError::DimensionOverflow);
        }
        checked = checked + 1;
    }
    let mut sorted = sort_images(images);
    proof {
        lemma_packing_order_keeps(input);
    }
    let ghost order = sorted@;
    let first_width: u32 = sorted[0].width;
    let first_height: u32 = sorted[0].height;
    let extent: u32 = if first_width >= first_height {
        first_width
    } else {
        first_height
    };
    proof {
        lemma_containing_square(extent as int);
    }
    if extent > 0x4000_0000 {
        return Err(PackError::DimensionOverflow);
    }
    let seed: u32 = get_minimum_containing_square(extent);
    if !check_side(seed) {
        return Err(PackError::DimensionOverflow);
    }
    let mut size: u32 = seed;
    let mut root = ImageNode::Empty { width: size, height: size };
    let ghost start = root;
    let ghost goal = placed_all(start, seed as int, order);
    proof {
        assert(order.take(0) =~= Seq::<Image>::empty());
        assert(start.images() =~= Seq::<Image>::empty());
        assert(order.skip(0) =~= order);
        assert(seed == seed_side(input));
        assert(goal == laid_out(input));
    }
    let mut done: usize = 0;
    let count: usize = sorted.len();
    while sorted.len() > 0
        invariant
            order.len() == count,
            done <= count,
            sorted@ =~= order.skip(done as int),
            all_wf(order),
            goal == placed_all(root, size as int, order.skip(done as int)),
            goal == laid_out(input),
            all_holdable(input),
            side_fits(seed_side(input)),
            input == images@,
            input.len() == count,
            seed == seed_side(input),
            root.contained(0, 0, size as int),
            root.images_wf(),
            root.placements(0, 0).len() == done,
            root.images().to_multiset() =~= order.take(done as int).to_multiset(),
            is_power_of_two(size as int),
            side_fits(size as int),
            1 <= seed <= size,
            size == seed ==> root.partitions(size as int, size as int),
        decreases sorted@.len(),
    {
        let img = sorted.remove(0);
        let ghost target = img;
        let ghost aim = placed(root, size as int, target);
        proof {
            assert(order.skip(done as int)[0] == target);
            assert(order.skip(done as int).drop_first() =~= order.skip(done + 1));
            assert(target == order[done as int]);
            assert(target.wf());
            root.lemma_inserted_contained(target, 0, 0, size as int);
            root.lemma_inserted_images_wf(target);
            if size == seed {
                root.lemma_inserted_partitions(target, size as int, size as int);
            }
            if root.accepts(target.width, target.height) {
                root.lemma_inserted_count(target, 0, 0);
                root.lemma_inserted_images(target);
            }
            assert(order.take(done + 1) =~= order.take(done as int).push(target));
            assert(goal == match aim {
                Ok((next, side)) => placed_all(next, side, order.skip(done + 1)),
                Err(e) => Err(e),
            });
        }
        let mut pending: Option<Image> = root.try_insert(img);
        while pending.is_some()
            invariant
                target.wf(),
                root.contained(0, 0, size as int),
                root.images_wf(),
                is_power_of_two(size as int),
                side_fits(size as int),
                1 <= seed <= size,
                pending is Some ==> pending == Some(target) && !root.accepts(
                    target.width,
                    target.height,
                ) && placed(root, size as int, target) == aim && root.placements(0, 0).len()
                    == done && root.images().to_multiset() =~= order.take(
                    done as int,
                ).to_multiset(),
                pending is None ==> aim == Ok::<(ImageNode, int), PackError>((root, size as int))
                    && root.placements(0, 0).len() == done + 1 && root.images().to_multiset()
                    =~= order.take(done as int).to_multiset().insert(target),
                size == seed ==> root.partitions(size as int, size as int),
                aim is Err ==> goal == Err::<(ImageNode, int), PackError>(aim->Err_0),
                goal == laid_out(input),
            all_holdable(input),
            side_fits(seed_side(input)),
                input == images@,
            decreases 0x1_0000_0000 - size,
        {
            let back = pending.unwrap();
            let ghost small = root;
            let ghost half = size as int;
            proof {
                assert(placed(small, half, target) == aim);
                assert(!small.accepts(target.width, target.height));
            }
            if size > 0x2000_0000 {
                return Err(PackError::DimensionOverflow);
            }
            let doubled: u32 = size * 2;
            if !check_side(doubled) {
                return Err(PackError::DimensionOverflow);
            }
            if !root.can_grow_width(doubled) {
                return Err(PackError::GrowthUnderflow);
            }
            proof {
                root.lemma_grown_width_contained(doubled as int, 0, 0, size as int, doubled as int);
                root.lemma_grown_placements(doubled as int, 0, 0);
                root.lemma_grown_images(doubled as int);
            }
            root.grow_width(doubled);
            if !root.can_grow_height(doubled) {
                return Err(PackError::GrowthUnderflow);
            }
            proof {
                root.lemma_grown_height_contained(
                    doubled as int,
                    0,
                    0,
                    doubled as int,
                    doubled as int,
                );
                root.lemma_grown_placements(doubled as int, 0, 0);
                root.lemma_grown_images(doubled as int);
            }
            root.grow_height(doubled);
            size = doubled;
            proof {
                assert(is_power_of_two(size as int)) by {
                    assert((size as int) / 2 == size / 2);
                }
                root.lemma_inserted_contained(target, 0, 0, size as int);
                root.lemma_inserted_images_wf(target);
                if root.accepts(target.width, target.height) {
                    root.lemma_inserted_count(target, 0, 0);
                    root.lemma_inserted_images(target);
                }
                assert(root == small.grown_width(2 * half).grown_height(2 * half));
                assert(placed(small, half, target) == placed(root, size as int, target));
            }
            pending = root.try_insert(back);
        }
        proof {
            vstd::seq_lib::to_multiset_build(order.take(done as int), target);
        }
        done = done + 1;
    }
    let ghost tree = root;
    proof {
        assert(done == count);
        assert(order.skip(done as int).len() == 0);
        assert(order.take(done as int) =~= order);
        assert(goal == Ok::<(ImageNode, int), PackError>((tree, size as int)));
        tree.lemma_contained_placements(0, 0, size as int);
        if size == seed {
            tree.lemma_partition_disjoint(0, 0, size as int, size as int);
        }
    }
    let mut regions: Vec<Region> = Vec::new();
    root.collect_regions(0, 0, &mut regions, size);
    let apart = regions_apart(&regions);
    proof {
        let ps = tree.placements(0, 0);
        if apart {
            assert forall|i: int, j: int| #![trigger ps[i], ps[j]] 0 <= i < j < ps.len() implies ps[i].disjoint(
                ps[j],
            ) by {
                assert(regions@[0 + i].of(ps[i]) && regions@[0 + j].of(ps[j]));
                assert(regions@[i].apart_from(&regions@[j]));
            }
        } else {
            if pairwise_disjoint(ps) {
                assert forall|i: int, j: int|
                    #![trigger regions@[i], regions@[j]]
                    0 <= i < j < regions@.len() implies regions@[i].apart_from(&regions@[j]) by {
                    assert(regions@[0 + i].of(ps[i]) && regions@[0 + j].of(ps[j]));
                    assert(ps[i].disjoint(ps[j]));
                }
            }
        }
    }
    if !apart {
        return Err(PackError::RegionOverlap);
    }
    let side: usize = size as usize;
    assert(side * side * 4 == size * size * 4) by (nonlinear_arith)
        requires
            side == size,
    ;
    let mut pixels: Vec<u8> = vec![0u8; side * side * 4];
    assert(pixels@ =~= blank(size as int));
    let mut sprites: Vec<SpriteEntry> = Vec::new();
    root.write_image(0, 0, &mut pixels, &mut sprites, size);
    let atlas = Atlas { size, pixels, sprites };
    proof {
        let ps = tree.placements(0, 0);
        assert forall|i: int| 0 <= i < atlas.sprites@.len() implies (#[trigger] atlas.sprites@[i]).locates(
            ps[i],
            size as int,
        ) by {
            assert(atlas.sprites@[0 + i].locates(ps[i], size as int));
        }
        assert(atlas.shows(tree, size as int));
        assert(all_inside(ps, size as int));
    }
    Ok(atlas)
}

/// Opens the group of textures in the registry, unless it is open already.
pub fn register_textures(resources: &mut Resources)
    requires
        old(resources).wf(),
    ensures
        final(resources).wf(),
        final(resources).group(ResourceClass::Texture) == Some(
            match old(resources).group(ResourceClass::Texture) {
                Some(items) => items,
                None => Seq::<Resource>::empty(),
            },
        ),
        final(resources).group(ResourceClass::Sprite) == old(resources).group(
            ResourceClass::Sprite,
        ),
        final(resources).group(ResourceClass::Handle) == old(resources).group(
            ResourceClass::Handle,
        ),
        final(resources).names() == old(resources).names(),
{
    let _ = resources.register_type(ResourceClass::Texture);
}

/// `s` begins with `prefix`.
pub open spec fn starts_with(s: Seq<char>, prefix: Seq<char>) -> bool {
    prefix.len() <= s.len() && s.subrange(0, prefix.len() as int) == prefix
}

/// `s` with `/` in place of every `\`.
pub open spec fn slashed(s: Seq<char>) -> Seq<char> {
    Seq::new(s.len(), |i: int| if s[i] == '\\' { '/' } else { s[i] })
}

/// The path relative to the root, with `/` for every `\`: a path that begins
/// with the root loses that leading root and nothing else, any other path is
/// kept whole.
pub open spec fn sprite_name(path: Seq<char>, root: Seq<char>) -> Seq<char> {
    if starts_with(path, root) {
        slashed(path.skip(root.len() as int))
    } else {
        slashed(path)
    }
}

/// The name of the sprite that is loaded from `path`: the path relative to
/// `root`, with `/` for every `\`.
pub fn create_sprite_name(path: &str, root: &str) -> (res: String)
    ensures
        res@ == sprite_name(path@, root@),
{
    let n: usize = path.unicode_len();
    let m: usize = root.unicode_len();
    let mut leading: bool = m <= n;
    let mut i: usize = 0;
    while leading && i < m
        invariant
            n == path@.len(),
            m == root@.len(),
            i <= m,
            leading ==> m <= n && path@.subrange(0, i as int) == root@.subrange(0, i as int),
            !leading ==> !starts_with(path@, root@),
        decreases (if leading { 1int } else { 0int }), m - i,
    {
        if path.get_char(i) == root.get_char(i) {
            proof {
                assert(path@.subrange(0, i + 1) =~= path@.subrange(0, i as int).push(path@[i as int]));
                assert(root@.subrange(0, i + 1) =~= root@.subrange(0, i as int).push(root@[i as int]));
            }
            i = i + 1;
        } else {
            proof {
                if starts_with(path@, root@) {
                    assert(path@.subrange(0, m as int)[i as int] == root@[i as int]);
                }
            }
            leading = false;
        }
    }
    proof {
        if leading {
            assert(root@.subrange(0, m as int) =~= root@);
        }
    }
    let start: usize = if leading { m } else { 0 };
    let mut out = String::new();
    let mut j: usize = start;
    proof {
        reveal_strlit("/");
        assert(path@.skip(0) =~= path@);
    }
    while j < n
        invariant
            n == path@.len(),
            start <= j <= n,
            "/"@ =~= seq!['/'],
            out@ =~= slashed(path@.subrange(start as int, j as int)),
        decreases n - j,
    {
        let c = path.get_char(j);
        let ghost before = out@;
        if c == '\\' {
            out.append("/");
        } else {
            out.append(path.substring_char(j, j + 1));
        }
        proof {
            let piece = path@.subrange(start as int, j + 1);
            assert(out@ =~= slashed(piece)) by {
                assert(out@.len() == piece.len());
                assert forall|k: int| 0 <= k < piece.len() implies out@[k] == slashed(piece)[k] by {
                    if k < j - start {
                        assert(out@[k] == before[k]);
                        assert(path@.subrange(start as int, j as int)[k] == piece[k]);
                    } else {
                        assert(piece[k] == c);
                    }
                }
            }
        }
        j = j + 1;
    }
    proof {
        assert(path@.subrange(start as int, n as int) =~= path@.skip(start as int));
    }
    out
}

/// The side only ever doubles, and it stays as it is exactly when the tree
/// takes the image at once.
pub proof fn lemma_placed_side(root: ImageNode, size: int, img: Image)
    requires
        size >= 1,
    ensures
        placed(root, size, img) matches Ok(fin) ==> {
            &&& fin.1 >= size
            &&& (fin.1 == size <==> root.accepts(img.width, img.height))
            &&& (is_power_of_two(size) ==> is_power_of_two(fin.1))
        },
    decreases 0x1_0000_0000 - size,
{
    if !root.accepts(img.width, img.height) && side_fits(2 * size) && root.width_growable(
        2 * size,
    ) && root.grown_width(2 * size).height_growable(2 * size) {
        lemma_placed_side(root.grown_width(2 * size).grown_height(2 * size), 2 * size, img);
        assert((2 * size) / 2 == size);
    }
}

/// Packing is a function of the input sequence: two atlases made from the
/// same images have the same side, the same pixels and the same texture
/// coordinates under the same names.
pub proof fn lemma_packing_repeats(images: Seq<Image>, first: Atlas, second: Atlas)
    requires
        packed(images) matches Ok(fin) && first.shows(fin.0, fin.1) && second.shows(fin.0, fin.1),
    ensures
        first.size == second.size,
        first.pixels@ == second.pixels@,
        first.sprites@.len() == second.sprites@.len(),
        forall|i: int|
            #![trigger first.sprites@[i]]
            #![trigger second.sprites@[i]]
            0 <= i < first.sprites@.len() ==> first.sprites@[i].name@ == second.sprites@[i].name@
                && first.sprites@[i].uv == second.sprites@[i].uv,
{
}

} // verus!
