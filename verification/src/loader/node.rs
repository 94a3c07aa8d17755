use vstd::prelude::*;
use crate::loader::image::Image;

verus! {

/// A rectangular region of the atlas: either free, or holding one image at its
/// top-left corner with the free space split into the band to the right of the
/// image (`left`) and the region below it (`down`).
pub enum ImageNode {
    Occupied { image: Image, left: Box<ImageNode>, down: Box<ImageNode> },
    Empty { width: u32, height: u32 },
}

/// Where an image ended up in the atlas, in pixels.
pub struct Placement {
    pub name: Seq<char>,
    pub x: int,
    pub y: int,
    pub width: int,
    pub height: int,
}

impl Placement {
    /// The two rectangles share no pixel.
    pub open spec fn disjoint(self, other: Placement) -> bool {
        ||| self.x + self.width <= other.x
        ||| other.x + other.width <= self.x
        ||| self.y + self.height <= other.y
        ||| other.y + other.height <= self.y
    }

    /// The rectangle lies inside the rectangle at `(x, y)` of the given extent.
    pub open spec fn inside(self, x: int, y: int, width: int, height: int) -> bool {
        &&& x <= self.x
        &&& y <= self.y
        &&& self.x + self.width <= x + width
        &&& self.y + self.height <= y + height
    }
}

/// A rectangle of the atlas, in pixels.
#[derive(Clone, Copy, PartialEq, Eq, Structural, Debug)]
pub struct Region {
    pub x: u32,
    pub y: u32,
    pub width: u32,
    pub height: u32,
}

impl Region {
    /// The rectangle is that of the placement.
    pub open spec fn of(&self, p: Placement) -> bool {
        self.x == p.x && self.y == p.y && self.width == p.width && self.height == p.height
    }

    /// The two rectangles share no pixel: one ends before the other begins,
    /// from left to right or from top to bottom.
    pub open spec fn apart_from(&self, other: &Region) -> bool {
        ||| self.x + self.width <= other.x
        ||| other.x + other.width <= self.x
        ||| self.y + self.height <= other.y
        ||| other.y + other.height <= self.y
    }

    /// Decides whether the two rectangles share no pixel.
    pub fn is_apart_from(&self, other: &Region) -> (res: bool)
        ensures
            res == self.apart_from(other),
    {
        let ax: u64 = self.x as u64;
        let ay: u64 = self.y as u64;
        let bx: u64 = other.x as u64;
        let by: u64 = other.y as u64;
        ax + self.width as u64 <= bx || bx + other.width as u64 <= ax || ay + self.height as u64
            <= by || by + other.height as u64 <= ay
    }
}

/// No two of the placements share a pixel.
pub open spec fn pairwise_disjoint(ps: Seq<Placement>) -> bool {
    forall|i: int, j: int| #![trigger ps[i], ps[j]] 0 <= i < j < ps.len() ==> ps[i].disjoint(ps[j])
}

/// The rectangle is apart from every rectangle of the sequence.
pub open spec fn clear_of(ps: Seq<Placement>, q: Placement) -> bool {
    forall|i: int| #![trigger ps[i]] 0 <= i < ps.len() ==> ps[i].disjoint(q)
}

/// The larger of two numbers.
pub open spec fn larger(a: int, b: int) -> int {
    if a >= b { a } else { b }
}

impl ImageNode {
    /// Some free region of the tree, searched depth first, is large enough
    /// for an image of the given extent.
    pub open spec fn accepts(self, w: u32, h: u32) -> bool
        decreases self,
    {
        match self {
            ImageNode::Empty { width, height } => width >= w && height >= h,
            ImageNode::Occupied { image, left, down } => left.accepts(w, h) || down.accepts(w, h),
        }
    }

    /// The tree after placing `target` into the first free region that takes
    /// it, `left` before `down`; the tree itself where none does.
    pub open spec fn inserted(self, target: Image) -> ImageNode
        decreases self,
    {
        match self {
            ImageNode::Empty { width, height } => {
                if width >= target.width && height >= target.height {
                    ImageNode::Occupied {
                        image: target,
                        left: Box::new(
                            ImageNode::Empty {
                                width: (width - target.width) as u32,
                                height: target.height,
                            },
                        ),
                        down: Box::new(
                            ImageNode::Empty { width, height: (height - target.height) as u32 },
                        ),
                    }
                } else {
                    self
                }
            },
            ImageNode::Occupied { image, left, down } => {
                if left.accepts(target.width, target.height) {
                    ImageNode::Occupied { image, left: Box::new(left.inserted(target)), down }
                } else if down.accepts(target.width, target.height) {
                    ImageNode::Occupied { image, left, down: Box::new(down.inserted(target)) }
                } else {
                    self
                }
            },
        }
    }

    /// Places `target` into the tree, or hands it back where no free region
    /// is large enough. Where the regions of the tree, free and occupied, were
    /// pairwise apart, they still are.
    pub fn try_insert(&mut self, target: Image) -> (res: Option<Image>)
        ensures
            *final(self) == old(self).inserted(target),
            old(self).accepts(target.width, target.height) ==> res is None,
            !old(self).accepts(target.width, target.height) ==> res == Some(target) && *final(self)
                == *old(self),
            forall|x: int, y: int|
                #![trigger final(self).regions(x, y)]
                pairwise_disjoint(old(self).regions(x, y)) ==> pairwise_disjoint(
                    final(self).regions(x, y),
                ),
        decreases *old(self),
    {
        let ghost before = *self;
        proof {
            assert forall|x: int, y: int|
                #![trigger before.inserted(target).regions(x, y)]
                pairwise_disjoint(before.regions(x, y)) implies pairwise_disjoint(
                before.inserted(target).regions(x, y),
            ) by {
                before.lemma_inserted_regions_apart(target, x, y);
            }
        }
        match self {
            ImageNode::Occupied { image: _, left, down } => {
                match left.try_insert(target) {
                    Some(back) => down.try_insert(back),
                    None => None,
                }
            },
            ImageNode::Empty { width, height } => {
                if *width >= target.width && *height >= target.height {
                    let remaining_width: u32 = *width - target.width;
                    let remaining_height: u32 = *height - target.height;
                    let full_width: u32 = *width;
                    let band_height: u32 = target.height;
                    *self = ImageNode::Occupied {
                        image: target,
                        left: Box::new(
                            ImageNode::Empty { width: remaining_width, height: band_height },
                        ),
                        down: Box::new(
                            ImageNode::Empty { width: full_width, height: remaining_height },
                        ),
                    };
                    None
                } else {
                    Some(target)
                }
            },
        }
    }

    /// Growing the width to `amt` never subtracts an image's width from a
    /// smaller amount.
    pub open spec fn width_growable(self, amt: int) -> bool
        decreases self,
    {
        match self {
            ImageNode::Empty { width, height } => true,
            ImageNode::Occupied { image, left, down } => {
                &&& image.width <= amt
                &&& left.width_growable(amt - image.width)
                &&& down.width_growable(amt - image.width)
            },
        }
    }

    /// As `width_growable`, for the height.
    pub open spec fn height_growable(self, amt: int) -> bool
        decreases self,
    {
        match self {
            ImageNode::Empty { width, height } => true,
            ImageNode::Occupied { image, left, down } => {
                &&& image.height <= amt
                &&& left.height_growable(amt - image.height)
                &&& down.height_growable(amt - image.height)
            },
        }
    }

    /// The tree after its width was grown to `amt`: a free region becomes at
    /// least `amt` wide, an occupied one passes on what is left of `amt`
    /// beside its image to both children.
    pub open spec fn grown_width(self, amt: int) -> ImageNode
        decreases self,
    {
        match self {
            ImageNode::Empty { width, height } => ImageNode::Empty {
                width: larger(width as int, amt) as u32,
                height,
            },
            ImageNode::Occupied { image, left, down } => ImageNode::Occupied {
                image,
                left: Box::new(left.grown_width(amt - image.width)),
                down: Box::new(down.grown_width(amt - image.width)),
            },
        }
    }

    /// As `grown_width`, for the height.
    pub open spec fn grown_height(self, amt: int) -> ImageNode
        decreases self,
    {
        match self {
            ImageNode::Empty { width, height } => ImageNode::Empty {
                width,
                height: larger(height as int, amt) as u32,
            },
            ImageNode::Occupied { image, left, down } => ImageNode::Occupied {
                image,
                left: Box::new(left.grown_height(amt - image.height)),
                down: Box::new(down.grown_height(amt - image.height)),
            },
        }
    }

    /// Decides whether the width can be grown to `amt`.
    pub fn can_grow_width(&self, amt: u32) -> (res: bool)
        ensures
            res == self.width_growable(amt as int),
        decreases *self,
    {
        match self {
            ImageNode::Empty { width: _, height: _ } => true,
            ImageNode::Occupied { image, left, down } => {
                if image.width <= amt {
                    let rest: u32 = amt - image.width;
                    left.can_grow_width(rest) && down.can_grow_width(rest)
                } else {
                    false
                }
            },
        }
    }

    /// Decides whether the height can be grown to `amt`.
    pub fn can_grow_height(&self, amt: u32) -> (res: bool)
        ensures
            res == self.height_growable(amt as int),
        decreases *self,
    {
        match self {
            ImageNode::Empty { width: _, height: _ } => true,
            ImageNode::Occupied { image, left, down } => {
                if image.height <= amt {
                    let rest: u32 = amt - image.height;
                    left.can_grow_height(rest) && down.can_grow_height(rest)
                } else {
                    false
                }
            },
        }
    }

    /// Grows the width of the tree to `amt`.
    pub fn grow_width(&mut self, amt: u32)
        requires
            old(self).width_growable(amt as int),
        ensures
            *final(self) == old(self).grown_width(amt as int),
        decreases *old(self),
    {
        match self {
            ImageNode::Occupied { image, left, down } => {
                let rest: u32 = amt - image.width;
                left.grow_width(rest);
                down.grow_width(rest);
            },
            ImageNode::Empty { width, height: _ } => {
                if *width < amt {
                    *width = amt;
                }
            },
        }
    }

    /// Grows the height of the tree to `amt`.
    pub fn grow_height(&mut self, amt: u32)
        requires
            old(self).height_growable(amt as int),
        ensures
            *final(self) == old(self).grown_height(amt as int),
        decreases *old(self),
    {
        match self {
            ImageNode::Occupied { image, left, down } => {
                let rest: u32 = amt - image.height;
                left.grow_height(rest);
                down.grow_height(rest);
            },
            ImageNode::Empty { width: _, height } => {
                if *height < amt {
                    *height = amt;
                }
            },
        }
    }

    /// Every image in the tree carries a pixel buffer of its own extent.
    pub open spec fn images_wf(self) -> bool
        decreases self,
    {
        match self {
            ImageNode::Empty { width, height } => true,
            ImageNode::Occupied { image, left, down } => {
                &&& image.wf()
                &&& left.images_wf()
                &&& down.images_wf()
            },
        }
    }

    /// The images of the tree in the order of the walk (the node's own, then
    /// `left`, then `down`), each with its position when the node's region
    /// starts at `(x, y)`.
    pub open spec fn placements(self, x: int, y: int) -> Seq<Placement>
        decreases self,
    {
        match self {
            ImageNode::Empty { width, height } => Seq::empty(),
            ImageNode::Occupied { image, left, down } => seq![
                Placement {
                    name: image.name@,
                    x,
                    y,
                    width: image.width as int,
                    height: image.height as int,
                },
            ] + left.placements(x + image.width, y) + down.placements(x, y + image.height),
        }
    }

    /// With the node's region starting at `(x, y)`, every region of the tree,
    /// free or occupied, ends inside a square of side `size`.
    pub open spec fn contained(self, x: int, y: int, size: int) -> bool
        decreases self,
    {
        match self {
            ImageNode::Empty { width, height } => x + width <= size && y + height <= size,
            ImageNode::Occupied { image, left, down } => {
                &&& x + image.width <= size
                &&& y + image.height <= size
                &&& left.contained(x + image.width, y, size)
                &&& down.contained(x, y + image.height, size)
            },
        }
    }

    /// The tree is a guillotine partition of a `width` by `height` rectangle:
    /// `left` stays in the band beside the image, `down` in the rest below.
    pub open spec fn partitions(self, width: int, height: int) -> bool
        decreases self,
    {
        match self {
            ImageNode::Empty { width: w, height: h } => w <= width && h <= height,
            ImageNode::Occupied { image, left, down } => {
                &&& image.width <= width
                &&& image.height <= height
                &&& left.partitions(width - image.width, image.height as int)
                &&& down.partitions(width, height - image.height)
            },
        }
    }

    /// Inserting keeps every region inside the square.
    pub proof fn lemma_inserted_contained(self, target: Image, x: int, y: int, size: int)
        requires
            self.contained(x, y, size),
        ensures
            self.inserted(target).contained(x, y, size),
        decreases self,
    {
        reveal_with_fuel(ImageNode::contained, 2);
        match self {
            ImageNode::Empty { width, height } => {},
            ImageNode::Occupied { image, left, down } => {
                left.lemma_inserted_contained(target, x + image.width, y, size);
                down.lemma_inserted_contained(target, x, y + image.height, size);
            },
        }
    }

    /// Inserting keeps every image well formed.
    pub proof fn lemma_inserted_images_wf(self, target: Image)
        requires
            self.images_wf(),
            target.wf(),
        ensures
            self.inserted(target).images_wf(),
        decreases self,
    {
        reveal_with_fuel(ImageNode::images_wf, 2);
        match self {
            ImageNode::Empty { width, height } => {},
            ImageNode::Occupied { image, left, down } => {
                left.lemma_inserted_images_wf(target);
                down.lemma_inserted_images_wf(target);
            },
        }
    }

    /// Inserting keeps a guillotine partition.
    pub proof fn lemma_inserted_partitions(self, target: Image, width: int, height: int)
        requires
            self.partitions(width, height),
        ensures
            self.inserted(target).partitions(width, height),
        decreases self,
    {
        reveal_with_fuel(ImageNode::partitions, 2);
        match self {
            ImageNode::Empty { width: w, height: h } => {},
            ImageNode::Occupied { image, left, down } => {
                left.lemma_inserted_partitions(target, width - image.width, image.height as int);
                down.lemma_inserted_partitions(target, width, height - image.height);
            },
        }
    }

    /// Growing the width to `amt` keeps every region inside a square that has
    /// room for `amt` from the node's left edge.
    pub proof fn lemma_grown_width_contained(self, amt: int, x: int, y: int, size: int, grown: int)
        requires
            self.contained(x, y, size),
            self.width_growable(amt),
            size <= grown <= u32::MAX,
            0 <= x,
            x + amt <= grown,
        ensures
            self.grown_width(amt).contained(x, y, grown),
            self.grown_width(amt).images_wf() == self.images_wf(),
        decreases self,
    {
        match self {
            ImageNode::Empty { width, height } => {},
            ImageNode::Occupied { image, left, down } => {
                left.lemma_grown_width_contained(
                    amt - image.width,
                    x + image.width,
                    y,
                    size,
                    grown,
                );
                down.lemma_grown_width_contained(amt - image.width, x, y + image.height, size, grown);
            },
        }
    }

    /// Growing the height to `amt` keeps every region inside a square that has
    /// room for `amt` from the node's top edge.
    pub proof fn lemma_grown_height_contained(self, amt: int, x: int, y: int, size: int, grown: int)
        requires
            self.contained(x, y, size),
            self.height_growable(amt),
            size <= grown <= u32::MAX,
            0 <= y,
            y + amt <= grown,
        ensures
            self.grown_height(amt).contained(x, y, grown),
            self.grown_height(amt).images_wf() == self.images_wf(),
        decreases self,
    {
        match self {
            ImageNode::Empty { width, height } => {},
            ImageNode::Occupied { image, left, down } => {
                left.lemma_grown_height_contained(
                    amt - image.height,
                    x + image.width,
                    y,
                    size,
                    grown,
                );
                down.lemma_grown_height_contained(
                    amt - image.height,
                    x,
                    y + image.height,
                    size,
                    grown,
                );
            },
        }
    }

    /// Every image of a contained tree lies inside the square.
    pub proof fn lemma_contained_placements(self, x: int, y: int, size: int)
        requires
            self.contained(x, y, size),
            0 <= x,
            0 <= y,
        ensures
            forall|i: int|
                0 <= i < self.placements(x, y).len() ==> (#[trigger] self.placements(x, y)[i]).inside(
                    0,
                    0,
                    size,
                    size,
                ),
        decreases self,
    {
        match self {
            ImageNode::Empty { width, height } => {},
            ImageNode::Occupied { image, left, down } => {
                left.lemma_contained_placements(x + image.width, y, size);
                down.lemma_contained_placements(x, y + image.height, size);
                let l = left.placements(x + image.width, y);
                let d = down.placements(x, y + image.height);
                let all = self.placements(x, y);
                assert forall|i: int| 0 <= i < all.len() implies (#[trigger] all[i]).inside(
                    0,
                    0,
                    size,
                    size,
                ) by {
                    if i >= 1 && i < 1 + l.len() {
                        assert(all[i] == l[i - 1]);
                    }
                    if i >= 1 + l.len() {
                        assert(all[i] == d[i - 1 - l.len()]);
                    }
                }
            },
        }
    }

    /// In a guillotine partition every image lies inside the node's rectangle,
    /// and no two images share a pixel.
    pub proof fn lemma_partition_disjoint(self, x: int, y: int, width: int, height: int)
        requires
            self.partitions(width, height),
        ensures
            forall|i: int|
                0 <= i < self.placements(x, y).len() ==> (#[trigger] self.placements(x, y)[i]).inside(
                    x,
                    y,
                    width,
                    height,
                ),
            forall|i: int, j: int|
                0 <= i < j < self.placements(x, y).len() ==> (#[trigger] self.placements(
                    x,
                    y,
                )[i]).disjoint(#[trigger] self.placements(x, y)[j]),
        decreases self,
    {
        match self {
            ImageNode::Empty { width: w, height: h } => {},
            ImageNode::Occupied { image, left, down } => {
                left.lemma_partition_disjoint(
                    x + image.width,
                    y,
                    width - image.width,
                    image.height as int,
                );
                down.lemma_partition_disjoint(x, y + image.height, width, height - image.height);
                let l = left.placements(x + image.width, y);
                let d = down.placements(x, y + image.height);
                let all = self.placements(x, y);
                assert forall|i: int, j: int| 0 <= i < j < all.len() implies (#[trigger] all[i]).disjoint(
                    #[trigger] all[j],
                ) by {
                    if i >= 1 && i < 1 + l.len() {
                        assert(all[i] == l[i - 1]);
                    }
                    if i >= 1 + l.len() {
                        assert(all[i] == d[i - 1 - l.len()]);
                    }
                    if j < 1 + l.len() {
                        assert(all[j] == l[j - 1]);
                    } else {
                        assert(all[j] == d[j - 1 - l.len()]);
                    }
                }
                assert forall|i: int| 0 <= i < all.len() implies (#[trigger] all[i]).inside(
                    x,
                    y,
                    width,
                    height,
                ) by {
                    if i >= 1 && i < 1 + l.len() {
                        assert(all[i] == l[i - 1]);
                    }
                    if i >= 1 + l.len() {
                        assert(all[i] == d[i - 1 - l.len()]);
                    }
                }
            },
        }
    }

    /// Inserting an image that the tree accepts adds one placement.
    pub proof fn lemma_inserted_count(self, target: Image, x: int, y: int)
        requires
            self.accepts(target.width, target.height),
        ensures
            self.inserted(target).placements(x, y).len() == self.placements(x, y).len() + 1,
        decreases self,
    {
        reveal_with_fuel(ImageNode::placements, 2);
        match self {
            ImageNode::Empty { width, height } => {},
            ImageNode::Occupied { image, left, down } => {
                if left.accepts(target.width, target.height) {
                    left.lemma_inserted_count(target, x + image.width, y);
                } else {
                    down.lemma_inserted_count(target, x, y + image.height);
                }
            },
        }
    }

    /// Growing moves no image.
    pub proof fn lemma_grown_placements(self, amt: int, x: int, y: int)
        ensures
            self.grown_width(amt).placements(x, y) == self.placements(x, y),
            self.grown_height(amt).placements(x, y) == self.placements(x, y),
        decreases self,
    {
        match self {
            ImageNode::Empty { width, height } => {},
            ImageNode::Occupied { image, left, down } => {
                left.lemma_grown_placements(amt - image.width, x + image.width, y);
                down.lemma_grown_placements(amt - image.width, x, y + image.height);
                left.lemma_grown_placements(amt - image.height, x + image.width, y);
                down.lemma_grown_placements(amt - image.height, x, y + image.height);
            },
        }
    }

    /// The images of the tree in the order of the walk.
    pub open spec fn images(self) -> Seq<Image>
        decreases self,
    {
        match self {
            ImageNode::Empty { width, height } => Seq::empty(),
            ImageNode::Occupied { image, left, down } => seq![image] + left.images()
                + down.images(),
        }
    }

    /// Each placement is that of the image at the same index of the walk: it
    /// has the image's name and the image's extent.
    pub proof fn lemma_placements_of_images(self, x: int, y: int)
        ensures
            self.placements(x, y).len() == self.images().len(),
            forall|i: int|
                #![trigger self.placements(x, y)[i]]
                #![trigger self.images()[i]]
                0 <= i < self.images().len() ==> {
                    &&& self.placements(x, y)[i].name == self.images()[i].name@
                    &&& self.placements(x, y)[i].width == self.images()[i].width
                    &&& self.placements(x, y)[i].height == self.images()[i].height
                },
        decreases self,
    {
        match self {
            ImageNode::Empty { width, height } => {},
            ImageNode::Occupied { image, left, down } => {
                left.lemma_placements_of_images(x + image.width, y);
                down.lemma_placements_of_images(x, y + image.height);
                let ps = self.placements(x, y);
                let imgs = self.images();
                let lp = left.placements(x + image.width, y);
                let dp = down.placements(x, y + image.height);
                assert forall|i: int| 0 <= i < imgs.len() implies ps[i].name == imgs[i].name@
                    && ps[i].width == imgs[i].width && ps[i].height == imgs[i].height by {
                    if i >= 1 && i < 1 + lp.len() {
                        assert(ps[i] == lp[i - 1]);
                        assert(imgs[i] == left.images()[i - 1]);
                    }
                    if i >= 1 + lp.len() {
                        assert(ps[i] == dp[i - 1 - lp.len()]);
                        assert(imgs[i] == down.images()[i - 1 - lp.len()]);
                    }
                }
            },
        }
    }

    /// Inserting an image that the tree accepts adds that image and no other.
    pub proof fn lemma_inserted_images(self, target: Image)
        requires
            self.accepts(target.width, target.height),
        ensures
            self.inserted(target).images().to_multiset() =~= self.images().to_multiset().insert(
                target,
            ),
        decreases self,
    {
        reveal_with_fuel(ImageNode::images, 2);
        broadcast use vstd::seq_lib::group_to_multiset_ensures;

        match self {
            ImageNode::Empty { width, height } => {
                assert(self.inserted(target).images() =~= Seq::<Image>::empty().push(target));
                assert(self.images() =~= Seq::<Image>::empty());
            },
            ImageNode::Occupied { image, left, down } => {
                let head = seq![image];
                if left.accepts(target.width, target.height) {
                    left.lemma_inserted_images(target);
                    let grown = left.inserted(target).images();
                    vstd::seq_lib::lemma_multiset_commutative(head + grown, down.images());
                    vstd::seq_lib::lemma_multiset_commutative(head, grown);
                    vstd::seq_lib::lemma_multiset_commutative(head + left.images(), down.images());
                    vstd::seq_lib::lemma_multiset_commutative(head, left.images());
                } else {
                    down.lemma_inserted_images(target);
                    let grown = down.inserted(target).images();
                    vstd::seq_lib::lemma_multiset_commutative(head + left.images(), grown);
                    vstd::seq_lib::lemma_multiset_commutative(head + left.images(), down.images());
                }
            },
        }
    }

    /// Growing keeps the images.
    pub proof fn lemma_grown_images(self, amt: int)
        ensures
            self.grown_width(amt).images() == self.images(),
            self.grown_height(amt).images() == self.images(),
        decreases self,
    {
        match self {
            ImageNode::Empty { width, height } => {},
            ImageNode::Occupied { image, left, down } => {
                left.lemma_grown_images(amt - image.width);
                down.lemma_grown_images(amt - image.width);
                left.lemma_grown_images(amt - image.height);
                down.lemma_grown_images(amt - image.height);
            },
        }
    }

    /// Appends the rectangle of every image of the tree, in the order of the
    /// walk, for a tree whose region starts at `(x, y)` inside a square of
    /// side `size`.
    pub fn collect_regions(&self, x: u32, y: u32, out: &mut Vec<Region>, size: u32)
        requires
            self.contained(x as int, y as int, size as int),
        ensures
            final(out)@.len() == old(out)@.len() + self.placements(x as int, y as int).len(),
            forall|i: int| 0 <= i < old(out)@.len() ==> #[trigger] final(out)@[i] == old(out)@[i],
            forall|i: int|
                0 <= i < self.placements(x as int, y as int).len() ==> (#[trigger] final(out)@[old(out)@.len() + i]).of(self.placements(x as int, y as int)[i]),
        decreases *self,
    {
        match self {
            ImageNode::Empty { width: _, height: _ } => {},
            ImageNode::Occupied { image, left, down } => {
                let ghost first = out@.len();
                let ghost l = left.placements(x + image.width, y as int);
                let ghost d = down.placements(x as int, y + image.height);
                out.push(Region { x, y, width: image.width, height: image.height });
                left.collect_regions(x + image.width, y, out, size);
                down.collect_regions(x, y + image.height, out, size);
                proof {
                    let all = self.placements(x as int, y as int);
                    assert forall|i: int| 0 <= i < all.len() implies (#[trigger] out@[first
                        + i]).of(all[i]) by {
                        if i == 0 {
                        } else if i < 1 + l.len() {
                            assert(all[i] == l[i - 1]);
                            assert(first + i == first + 1 + (i - 1));
                        } else {
                            assert(all[i] == d[i - 1 - l.len()]);
                            assert(first + i == first + 1 + l.len() + (i - 1 - l.len()));
                        }
                    }
                }
            },
        }
    }

    /// All regions of the tree, free and occupied, in the order of the walk,
    /// each with its position when the node's region starts at `(x, y)`. A
    /// free region has no name.
    pub open spec fn regions(self, x: int, y: int) -> Seq<Placement>
        decreases self,
    {
        match self {
            ImageNode::Empty { width, height } => seq![
                Placement { name: Seq::empty(), x, y, width: width as int, height: height as int },
            ],
            ImageNode::Occupied { image, left, down } => seq![
                Placement {
                    name: image.name@,
                    x,
                    y,
                    width: image.width as int,
                    height: image.height as int,
                },
            ] + left.regions(x + image.width, y) + down.regions(x, y + image.height),
        }
    }

    /// What is apart from every region of the tree is apart from every region
    /// after an insertion: the new image and the two regions beside and below
    /// it lie inside the free region that took the image.
    pub proof fn lemma_inserted_clear_of(self, target: Image, x: int, y: int, q: Placement)
        requires
            clear_of(self.regions(x, y), q),
        ensures
            clear_of(self.inserted(target).regions(x, y), q),
        decreases self,
    {
        reveal_with_fuel(ImageNode::regions, 2);
        let after = self.inserted(target).regions(x, y);
        let before = self.regions(x, y);
        match self {
            ImageNode::Empty { width, height } => {
                assert(before[0].disjoint(q));
                if width >= target.width && height >= target.height {
                    assert forall|i: int| 0 <= i < after.len() implies (#[trigger] after[i]).disjoint(
                        q,
                    ) by {
                        assert(after.len() == 3);
                    }
                }
            },
            ImageNode::Occupied { image, left, down } => {
                let rl = left.regions(x + image.width, y);
                let rd = down.regions(x, y + image.height);
                assert(before[0].disjoint(q));
                assert forall|i: int| 0 <= i < rl.len() implies (#[trigger] rl[i]).disjoint(q) by {
                    assert(before[1 + i] == rl[i]);
                }
                assert forall|i: int| 0 <= i < rd.len() implies (#[trigger] rd[i]).disjoint(q) by {
                    assert(before[1 + rl.len() + i] == rd[i]);
                }
                if left.accepts(target.width, target.height) {
                    left.lemma_inserted_clear_of(target, x + image.width, y, q);
                    let nl = left.inserted(target).regions(x + image.width, y);
                    assert forall|i: int| 0 <= i < after.len() implies (#[trigger] after[i]).disjoint(
                        q,
                    ) by {
                        if i == 0 {
                        } else if i < 1 + nl.len() {
                            assert(after[i] == nl[i - 1]);
                        } else {
                            assert(after[i] == rd[i - 1 - nl.len()]);
                        }
                    }
                } else if down.accepts(target.width, target.height) {
                    down.lemma_inserted_clear_of(target, x, y + image.height, q);
                    let nd = down.inserted(target).regions(x, y + image.height);
                    assert forall|i: int| 0 <= i < after.len() implies (#[trigger] after[i]).disjoint(
                        q,
                    ) by {
                        if i == 0 {
                        } else if i < 1 + rl.len() {
                            assert(after[i] == rl[i - 1]);
                        } else {
                            assert(after[i] == nd[i - 1 - rl.len()]);
                        }
                    }
                }
            },
        }
    }

    /// Inserting keeps the regions of the tree, free and occupied, pairwise
    /// apart.
    pub proof fn lemma_inserted_regions_apart(self, target: Image, x: int, y: int)
        requires
            pairwise_disjoint(self.regions(x, y)),
        ensures
            pairwise_disjoint(self.inserted(target).regions(x, y)),
        decreases self,
    {
        reveal_with_fuel(ImageNode::regions, 2);
        let after = self.inserted(target).regions(x, y);
        let before = self.regions(x, y);
        match self {
            ImageNode::Empty { width, height } => {
                if width >= target.width && height >= target.height {
                    assert(after.len() == 3);
                }
            },
            ImageNode::Occupied { image, left, down } => {
                let lx = x + image.width;
                let dy = y + image.height;
                let rl = left.regions(lx, y);
                let rd = down.regions(x, dy);
                let own = before[0];
                assert forall|i: int, j: int| #![trigger rl[i], rl[j]] 0 <= i < j < rl.len() implies rl[i].disjoint(
                    rl[j],
                ) by {
                    assert(before[1 + i] == rl[i] && before[1 + j] == rl[j]);
                }
                assert forall|i: int, j: int| #![trigger rd[i], rd[j]] 0 <= i < j < rd.len() implies rd[i].disjoint(
                    rd[j],
                ) by {
                    assert(before[1 + rl.len() + i] == rd[i] && before[1 + rl.len() + j] == rd[j]);
                }
                assert forall|i: int| 0 <= i < rl.len() implies (#[trigger] rl[i]).disjoint(own) by {
                    assert(before[1 + i] == rl[i]);
                    assert(before[0].disjoint(before[1 + i]));
                }
                assert forall|i: int| 0 <= i < rd.len() implies (#[trigger] rd[i]).disjoint(own) by {
                    assert(before[1 + rl.len() + i] == rd[i]);
                    assert(before[0].disjoint(before[1 + rl.len() + i]));
                }
                if left.accepts(target.width, target.height) {
                    left.lemma_inserted_regions_apart(target, lx, y);
                    left.lemma_inserted_clear_of(target, lx, y, own);
                    let nl = left.inserted(target).regions(lx, y);
                    assert forall|i: int, j: int| #![trigger after[i], after[j]] 0 <= i < j < after.len() implies after[i].disjoint(
                        after[j],
                    ) by {
                        if j < 1 + nl.len() {
                            assert(after[j] == nl[j - 1]);
                            if i > 0 {
                                assert(after[i] == nl[i - 1]);
                            }
                        } else {
                            let m = j - 1 - nl.len();
                            assert(after[j] == rd[m]);
                            if i == 0 {
                            } else if i < 1 + nl.len() {
                                assert(after[i] == nl[i - 1]);
                                assert forall|k: int| 0 <= k < rl.len() implies (#[trigger] rl[k]).disjoint(
                                    rd[m],
                                ) by {
                                    assert(before[1 + k] == rl[k]);
                                    assert(before[1 + rl.len() + m] == rd[m]);
                                    assert(before[1 + k].disjoint(before[1 + rl.len() + m]));
                                }
                                left.lemma_inserted_clear_of(target, lx, y, rd[m]);
                            } else {
                                assert(after[i] == rd[i - 1 - nl.len()]);
                            }
                        }
                    }
                } else if down.accepts(target.width, target.height) {
                    down.lemma_inserted_regions_apart(target, x, dy);
                    down.lemma_inserted_clear_of(target, x, dy, own);
                    let nd = down.inserted(target).regions(x, dy);
                    assert forall|i: int, j: int| #![trigger after[i], after[j]] 0 <= i < j < after.len() implies after[i].disjoint(
                        after[j],
                    ) by {
                        if j < 1 + rl.len() {
                            assert(after[j] == rl[j - 1]);
                            if i > 0 {
                                assert(after[i] == rl[i - 1]);
                            }
                        } else {
                            let m = j - 1 - rl.len();
                            assert(after[j] == nd[m]);
                            if i == 0 {
                            } else if i < 1 + rl.len() {
                                let k = i - 1;
                                assert(after[i] == rl[k]);
                                assert forall|n: int| 0 <= n < rd.len() implies (#[trigger] rd[n]).disjoint(
                                    rl[k],
                                ) by {
                                    assert(before[1 + k] == rl[k]);
                                    assert(before[1 + rl.len() + n] == rd[n]);
                                    assert(before[1 + k].disjoint(before[1 + rl.len() + n]));
                                }
                                down.lemma_inserted_clear_of(target, x, dy, rl[k]);
                            } else {
                                assert(after[i] == nd[i - 1 - rl.len()]);
                            }
                        }
                    }
                }
            },
        }
    }

    /// What is apart from every region of the tree is apart from every image.
    pub proof fn lemma_regions_clear_images(self, x: int, y: int, q: Placement)
        requires
            clear_of(self.regions(x, y), q),
        ensures
            clear_of(self.placements(x, y), q),
        decreases self,
    {
        match self {
            ImageNode::Empty { width, height } => {},
            ImageNode::Occupied { image, left, down } => {
                let lx = x + image.width;
                let dy = y + image.height;
                let before = self.regions(x, y);
                let rl = left.regions(lx, y);
                let rd = down.regions(x, dy);
                let pl = left.placements(lx, y);
                let pd = down.placements(x, dy);
                let ps = self.placements(x, y);
                assert(before[0].disjoint(q));
                assert forall|i: int| 0 <= i < rl.len() implies (#[trigger] rl[i]).disjoint(q) by {
                    assert(before[1 + i] == rl[i]);
                }
                assert forall|i: int| 0 <= i < rd.len() implies (#[trigger] rd[i]).disjoint(q) by {
                    assert(before[1 + rl.len() + i] == rd[i]);
                }
                left.lemma_regions_clear_images(lx, y, q);
                down.lemma_regions_clear_images(x, dy, q);
                assert forall|i: int| 0 <= i < ps.len() implies (#[trigger] ps[i]).disjoint(q) by {
                    if i == 0 {
                        assert(ps[0] == before[0]);
                    } else if i < 1 + pl.len() {
                        assert(ps[i] == pl[i - 1]);
                    } else {
                        assert(ps[i] == pd[i - 1 - pl.len()]);
                    }
                }
            },
        }
    }

    /// Where the regions of the tree, free and occupied, are pairwise apart,
    /// no two images share a pixel.
    pub proof fn lemma_regions_apart_images(self, x: int, y: int)
        requires
            pairwise_disjoint(self.regions(x, y)),
        ensures
            pairwise_disjoint(self.placements(x, y)),
        decreases self,
    {
        match self {
            ImageNode::Empty { width, height } => {},
            ImageNode::Occupied { image, left, down } => {
                let lx = x + image.width;
                let dy = y + image.height;
                let before = self.regions(x, y);
                let rl = left.regions(lx, y);
                let rd = down.regions(x, dy);
                let pl = left.placements(lx, y);
                let pd = down.placements(x, dy);
                let ps = self.placements(x, y);
                let own = before[0];
                assert forall|i: int, j: int| #![trigger rl[i], rl[j]] 0 <= i < j < rl.len() implies rl[i].disjoint(
                    rl[j],
                ) by {
                    assert(before[1 + i] == rl[i] && before[1 + j] == rl[j]);
                }
                assert forall|i: int, j: int| #![trigger rd[i], rd[j]] 0 <= i < j < rd.len() implies rd[i].disjoint(
                    rd[j],
                ) by {
                    assert(before[1 + rl.len() + i] == rd[i] && before[1 + rl.len() + j] == rd[j]);
                }
                assert forall|i: int| 0 <= i < rl.len() implies (#[trigger] rl[i]).disjoint(own) by {
                    assert(before[1 + i] == rl[i]);
                    assert(before[0].disjoint(before[1 + i]));
                }
                assert forall|i: int| 0 <= i < rd.len() implies (#[trigger] rd[i]).disjoint(own) by {
                    assert(before[1 + rl.len() + i] == rd[i]);
                    assert(before[0].disjoint(before[1 + rl.len() + i]));
                }
                left.lemma_regions_apart_images(lx, y);
                down.lemma_regions_apart_images(x, dy);
                left.lemma_regions_clear_images(lx, y, own);
                down.lemma_regions_clear_images(x, dy, own);
                assert forall|i: int, j: int| #![trigger ps[i], ps[j]] 0 <= i < j < ps.len() implies ps[i].disjoint(
                    ps[j],
                ) by {
                    if j < 1 + pl.len() {
                        assert(ps[j] == pl[j - 1]);
                        if i > 0 {
                            assert(ps[i] == pl[i - 1]);
                        } else {
                            assert(ps[0] == own);
                        }
                    } else {
                        let m = j - 1 - pl.len();
                        assert(ps[j] == pd[m]);
                        if i == 0 {
                            assert(ps[0] == own);
                        } else if i < 1 + pl.len() {
                            let k = i - 1;
                            assert(ps[i] == pl[k]);
                            // every region of `left` is apart from every region of `down`
                            assert forall|n: int| 0 <= n < rd.len() implies clear_of(
                                rl,
                                #[trigger] rd[n],
                            ) by {
                                assert forall|a: int| 0 <= a < rl.len() implies (#[trigger] rl[a]).disjoint(
                                    rd[n],
                                ) by {
                                    assert(before[1 + a] == rl[a]);
                                    assert(before[1 + rl.len() + n] == rd[n]);
                                    assert(before[1 + a].disjoint(before[1 + rl.len() + n]));
                                }
                            }
                            assert forall|n: int| 0 <= n < rd.len() implies (#[trigger] rd[n]).disjoint(
                                pl[k],
                            ) by {
                                left.lemma_regions_clear_images(lx, y, rd[n]);
                                assert(pl[k].disjoint(rd[n]));
                            }
                            down.lemma_regions_clear_images(x, dy, pl[k]);
                        } else {
                            assert(ps[i] == pd[i - 1 - pl.len()]);
                        }
                    }
                }
            },
        }
    }
}

} // verus!
