use vstd::prelude::*;
use vstd::arithmetic::div_mod::lemma_fundamental_div_mod;
use vstd::arithmetic::div_mod::lemma_fundamental_div_mod_converse;
use crate::loader::image::Image;
use crate::loader::node::ImageNode;
use crate::loader::node::Placement;

verus! {

/// Texture coordinates of one image inside the atlas, as exact fractions: each
/// coordinate is its field divided by `scale`, which is sixteen times the
/// atlas side. Every edge is moved inwards by one sixteenth of a texel.
#[derive(Clone, Copy, PartialEq, Eq, Structural, Debug)]
pub struct UvRect {
    pub min_u: i64,
    pub min_v: i64,
    pub max_u: i64,
    pub max_v: i64,
    pub scale: i64,
}

/// The texture coordinates of an image, under the name of the image.
#[derive(Clone, Debug)]
pub struct SpriteEntry {
    pub name: String,
    pub uv: UvRect,
}

/// The inset texture coordinates of a placed image in an atlas of side `size`.
pub open spec fn uv_rect(p: Placement, size: int) -> UvRect {
    UvRect {
        min_u: (16 * p.x + 1) as i64,
        min_v: (16 * p.y + 1) as i64,
        max_u: (16 * (p.x + p.width) - 1) as i64,
        max_v: (16 * (p.y + p.height) - 1) as i64,
        scale: (16 * size) as i64,
    }
}

impl SpriteEntry {
    /// The entry names the placed image and holds its texture coordinates.
    pub open spec fn locates(&self, p: Placement, size: int) -> bool {
        self.name@ == p.name && self.uv == uv_rect(p, size)
    }
}

/// The byte at index `i` of an atlas buffer while `image` is being copied to
/// `(x, y)`: `rows` rows are done and `bytes` bytes of the next one.
pub open spec fn copied_byte(
    buf: Seq<u8>,
    image: Image,
    x: int,
    y: int,
    size: int,
    rows: int,
    bytes: int,
    i: int,
) -> u8 {
    let col = (i / 4) % size;
    let row = (i / 4) / size;
    if x <= col < x + image.width && y <= row < y + image.height && (row - y < rows || (row - y
        == rows && (col - x) * 4 + i % 4 < bytes)) {
        image.pixels@[((row - y) * image.width + (col - x)) * 4 + i % 4]
    } else {
        buf[i]
    }
}

/// The atlas buffer `buf`, of side `size`, after the pixel rows of `image`
/// were copied to `(x, y)`: a byte of pixel `(col, row)` inside the image's
/// rectangle is the image's byte of pixel `(col - x, row - y)`, every other
/// byte is unchanged.
pub open spec fn blitted(buf: Seq<u8>, image: Image, x: int, y: int, size: int) -> Seq<u8> {
    Seq::new(buf.len(), |i: int| copied_byte(buf, image, x, y, size, image.height as int, 0, i))
}

proof fn lemma_row_bounds(w: int, h: int, x: int, y: int, size: int, py: int)
    requires
        0 <= x,
        0 <= y,
        0 <= w,
        0 <= py < h,
        x + w <= size,
        y + h <= size,
    ensures
        0 <= (y + py) * size,
        ((y + py) * size + x + w) * 4 <= size * size * 4,
        0 <= py * w,
        (py * w + w) * 4 <= w * h * 4,
{
    assert((y + py) * size + size <= size * size) by (nonlinear_arith)
        requires
            0 <= y + py < size,
    ;
    assert(0 <= (y + py) * size) by (nonlinear_arith)
        requires
            0 <= y + py,
            0 <= size,
    ;
    assert(py * w + w <= w * h && 0 <= py * w) by (nonlinear_arith)
        requires
            0 <= py < h,
            0 <= w,
    ;
}

/// Copies the pixel rows of `image` into the atlas buffer at `(x, y)`.
pub fn blit(image: &Image, x: u32, y: u32, out: &mut Vec<u8>, size: u32)
    requires
        image.wf(),
        x + image.width <= size,
        y + image.height <= size,
        old(out)@.len() == size as int * size as int * 4,
    ensures
        final(out)@ == blitted(old(out)@, *image, x as int, y as int, size as int),
{
    let ghost before = out@;
    let ghost xi = x as int;
    let ghost yi = y as int;
    let ghost si = size as int;
    let w: usize = image.width as usize;
    let h: usize = image.height as usize;
    let total: usize = out.len();
    let src_total: usize = image.pixels.len();
    if w == 0 {
        assert(out@ =~= blitted(before, *image, xi, yi, si));
        return ;
    }
    let mut py: usize = 0;
    while py < h
        invariant
            image.wf(),
            0 < w == image.width,
            h == image.height,
            xi == x,
            yi == y,
            si == size,
            xi + w <= si,
            yi + h <= si,
            py <= h,
            before.len() == si * si * 4,
            out@.len() == before.len(),
            total == before.len(),
            src_total == image.pixels@.len(),
            forall|i: int|
                0 <= i < out@.len() ==> #[trigger] out@[i] == copied_byte(
                    before,
                    *image,
                    xi,
                    yi,
                    si,
                    py as int,
                    0,
                    i,
                ),
        decreases h - py,
    {
        proof {
            lemma_row_bounds(w as int, h as int, xi, yi, si, py as int);
            assert((yi + py) * si <= total);
            assert(py * w <= src_total);
        }
        let dst_row: usize = ((y as usize + py) * (size as usize) + x as usize) * 4;
        let src_row: usize = py * w * 4;
        let row_bytes: usize = w * 4;
        let mut k: usize = 0;
        while k < row_bytes
            invariant
                image.wf(),
                0 < w == image.width,
                h == image.height,
                xi == x,
                yi == y,
                si == size,
                xi + w <= si,
                yi + h <= si,
                py < h,
                k <= row_bytes == w * 4,
                dst_row == ((yi + py) * si + xi) * 4,
                src_row == py * w * 4,
                dst_row + row_bytes <= before.len(),
                src_row + row_bytes <= image.pixels@.len(),
                0 <= (yi + py) * si,
                0 <= py * w,
                before.len() == si * si * 4,
                out@.len() == before.len(),
                total == before.len(),
                src_total == image.pixels@.len(),
                forall|i: int|
                    0 <= i < out@.len() ==> #[trigger] out@[i] == copied_byte(
                        before,
                        *image,
                        xi,
                        yi,
                        si,
                        py as int,
                        k as int,
                        i,
                    ),
            decreases row_bytes - k,
        {
            let ghost prev = out@;
            let ghost dst = dst_row + k;
            out.set(dst_row + k, image.pixels[src_row + k]);
            proof {
                let q = (yi + py) * si + xi + k / 4;
                assert(dst / 4 == q);
                lemma_fundamental_div_mod_converse(q, si, yi + py, xi + k / 4);
                assert forall|i: int| 0 <= i < out@.len() implies #[trigger] out@[i] == copied_byte(
                    before,
                    *image,
                    xi,
                    yi,
                    si,
                    py as int,
                    k + 1,
                    i,
                ) by {
                    let col = (i / 4) % si;
                    let row = (i / 4) / si;
                    lemma_fundamental_div_mod(i / 4, si);
                    if i != dst {
                        assert(out@[i] == prev[i]);
                        if row == yi + py {
                            assert(si * row == (yi + py) * si) by (nonlinear_arith)
                                requires
                                    row == yi + py,
                            ;
                            assert((col - xi) * 4 + i % 4 != k);
                        }
                    } else {
                        assert(row == yi + py);
                        assert(col == xi + k / 4);
                        assert(i % 4 == k % 4);
                        assert(((row - yi) * w + (col - xi)) * 4 + i % 4 == src_row + k);
                    }
                }
            }
            k += 1;
        }
        py += 1;
    }
    assert(out@ =~= blitted(before, *image, xi, yi, si));
}

impl ImageNode {
    /// The atlas buffer after the walk has copied every image of the tree
    /// into `buf`: the node's own image, then those of `left`, then those of
    /// `down`.
    pub open spec fn composited(self, x: int, y: int, buf: Seq<u8>, size: int) -> Seq<u8>
        decreases self,
    {
        match self {
            ImageNode::Empty { width, height } => buf,
            ImageNode::Occupied { image, left, down } => down.composited(
                x,
                y + image.height,
                left.composited(x + image.width, y, blitted(buf, image, x, y, size), size),
                size,
            ),
        }
    }

    /// Walks the tree whose region starts at `(x, y)`: copies every image into
    /// the atlas buffer and records its texture coordinates.
    pub fn write_image(
        self,
        x: u32,
        y: u32,
        out: &mut Vec<u8>,
        sprites: &mut Vec<SpriteEntry>,
        size: u32,
    )
        requires
            self.images_wf(),
            self.contained(x as int, y as int, size as int),
            size <= 0x4000_0000,
            old(out)@.len() == size as int * size as int * 4,
        ensures
            final(out)@ == self.composited(x as int, y as int, old(out)@, size as int),
            final(out)@.len() == old(out)@.len(),
            final(sprites)@.len() == old(sprites)@.len() + self.placements(x as int, y as int).len(),
            forall|i: int|
                0 <= i < old(sprites)@.len() ==> #[trigger] final(sprites)@[i] == old(sprites)@[i],
            forall|i: int|
                0 <= i < self.placements(x as int, y as int).len() ==> (#[trigger] final(sprites)@[old(sprites)@.len() + i]).locates(self.placements(x as int, y as int)[i], size as int),
        decreases self,
    {
        match self {
            ImageNode::Empty { width: _, height: _ } => {},
            ImageNode::Occupied { image, left, down } => {
                let ghost first = sprites@.len();
                let ghost own = self.placements(x as int, y as int)[0];
                let ghost l = left.placements(x + image.width, y as int);
                let ghost d = down.placements(x as int, y + image.height);
                blit(&image, x, y, out, size);
                let right: u32 = x + image.width;
                let below: u32 = y + image.height;
                let uv = UvRect {
                    min_u: 16 * (x as i64) + 1,
                    min_v: 16 * (y as i64) + 1,
                    max_u: 16 * (right as i64) - 1,
                    max_v: 16 * (below as i64) - 1,
                    scale: 16 * (size as i64),
                };
                sprites.push(SpriteEntry { name: image.name, uv });
                let ghost mid = sprites@;
                assert(sprites@[first as int].locates(own, size as int));
                left.write_image(right, y, out, sprites, size);
                down.write_image(x, below, out, sprites, size);
                proof {
                    let all = self.placements(x as int, y as int);
                    assert forall|i: int| 0 <= i < all.len() implies (#[trigger] sprites@[first
                        + i]).locates(all[i], size as int) by {
                        if i == 0 {
                        } else if i < 1 + l.len() {
                            assert(all[i] == l[i - 1]);
                            assert(first + i == first + 1 + (i - 1));
                        } else {
                            assert(all[i] == d[i - 1 - l.len()]);
                            assert(first + i == first + 1 + l.len() + (i - 1 - l.len()));
                        }
                    }
                }
            },
        }
    }
}

/// The byte at index `i` of an atlas buffer of side `size` belongs to a pixel
/// of the rectangle at `(x, y)` of the given extent.
pub open spec fn pixel_in(i: int, size: int, x: int, y: int, width: int, height: int) -> bool {
    let col = (i / 4) % size;
    let row = (i / 4) / size;
    x <= col < x + width && y <= row < y + height
}

/// The byte of `image`, placed at `(x, y)`, that belongs at index `i` of an
/// atlas buffer of side `size`.
pub open spec fn image_byte(image: Image, x: int, y: int, size: int, i: int) -> u8 {
    let col = (i / 4) % size;
    let row = (i / 4) / size;
    image.pixels@[((row - y) * image.width + (col - x)) * 4 + i % 4]
}

impl ImageNode {
    /// What the walk leaves in the buffer when the tree is a guillotine
    /// partition of the rectangle at `(x, y)`: every byte of a pixel inside
    /// the rectangle of a placed image is that image's byte, and every byte
    /// of a pixel outside the node's rectangle is as it was.
    pub proof fn lemma_composited_shows(
        self,
        x: int,
        y: int,
        width: int,
        height: int,
        buf: Seq<u8>,
        size: int,
    )
        requires
            self.partitions(width, height),
        ensures
            self.composited(x, y, buf, size).len() == buf.len(),
            forall|i: int|
                0 <= i < buf.len() && !pixel_in(i, size, x, y, width, height)
                    ==> #[trigger] self.composited(x, y, buf, size)[i] == buf[i],
            forall|k: int, i: int|
                #![trigger self.images()[k], self.composited(x, y, buf, size)[i]]
                0 <= k < self.images().len() && 0 <= i < buf.len() && pixel_in(
                    i,
                    size,
                    self.placements(x, y)[k].x,
                    self.placements(x, y)[k].y,
                    self.placements(x, y)[k].width,
                    self.placements(x, y)[k].height,
                ) ==> self.composited(x, y, buf, size)[i] == image_byte(
                    self.images()[k],
                    self.placements(x, y)[k].x,
                    self.placements(x, y)[k].y,
                    size,
                    i,
                ),
        decreases self,
    {
        match self {
            ImageNode::Empty { width: w, height: h } => {},
            ImageNode::Occupied { image, left, down } => {
                let iw = image.width as int;
                let ih = image.height as int;
                let b1 = blitted(buf, image, x, y, size);
                let b2 = left.composited(x + iw, y, b1, size);
                let b3 = down.composited(x, y + ih, b2, size);
                left.lemma_composited_shows(x + iw, y, width - iw, ih, b1, size);
                down.lemma_composited_shows(x, y + ih, width, height - ih, b2, size);
                left.lemma_partition_disjoint(x + iw, y, width - iw, ih);
                down.lemma_partition_disjoint(x, y + ih, width, height - ih);
                left.lemma_placements_of_images(x + iw, y);
                down.lemma_placements_of_images(x, y + ih);
                self.lemma_placements_of_images(x, y);
                let ps = self.placements(x, y);
                let imgs = self.images();
                let lp = left.placements(x + iw, y);
                let dp = down.placements(x, y + ih);
                assert(b3 == self.composited(x, y, buf, size));
                assert forall|i: int|
                    0 <= i < buf.len() && !pixel_in(i, size, x, y, width, height) implies b3[i]
                    == buf[i] by {
                    assert(!pixel_in(i, size, x, y + ih, width, height - ih));
                    assert(!pixel_in(i, size, x + iw, y, width - iw, ih));
                    assert(b3[i] == b2[i]);
                    assert(b2[i] == b1[i]);
                }
                assert forall|k: int, i: int|
                    0 <= k < imgs.len() && 0 <= i < buf.len() && pixel_in(
                        i,
                        size,
                        ps[k].x,
                        ps[k].y,
                        ps[k].width,
                        ps[k].height,
                    ) implies b3[i] == image_byte(imgs[k], ps[k].x, ps[k].y, size, i) by {
                    if k == 0 {
                        assert(ps[0].x == x && ps[0].y == y && ps[0].width == iw && ps[0].height
                            == ih);
                        assert(imgs[0] == image);
                        assert(!pixel_in(i, size, x, y + ih, width, height - ih));
                        assert(!pixel_in(i, size, x + iw, y, width - iw, ih));
                        assert(b3[i] == b2[i]);
                        assert(b2[i] == b1[i]);
                    } else if k < 1 + lp.len() {
                        assert(ps[k] == lp[k - 1]);
                        assert(imgs[k] == left.images()[k - 1]);
                        assert(lp[k - 1].inside(x + iw, y, width - iw, ih));
                        assert(!pixel_in(i, size, x, y + ih, width, height - ih));
                        assert(b3[i] == b2[i]);
                    } else {
                        assert(ps[k] == dp[k - 1 - lp.len()]);
                        assert(imgs[k] == down.images()[k - 1 - lp.len()]);
                    }
                }
            },
        }
    }
}

/// The texture rectangle of a placed image, scaled back to pixels, is the
/// image less the inset on each side: it spans sixteen times the image's
/// extent less two, in units of one sixteenth of a pixel, and lies between
/// zero and one.
pub proof fn lemma_uv_round_trip(p: Placement, size: int)
    requires
        0 <= p.width,
        0 <= p.height,
        p.inside(0, 0, size, size),
        size <= 0x4000_0000,
    ensures
        uv_rect(p, size).scale == 16 * size,
        uv_rect(p, size).max_u - uv_rect(p, size).min_u == 16 * p.width - 2,
        uv_rect(p, size).max_v - uv_rect(p, size).min_v == 16 * p.height - 2,
        0 < uv_rect(p, size).min_u,
        0 < uv_rect(p, size).min_v,
        uv_rect(p, size).max_u < uv_rect(p, size).scale,
        uv_rect(p, size).max_v < uv_rect(p, size).scale,
{
}

} // verus!
