use vstd::prelude::*;

verus! {

/// A decoded raster image: row-major RGBA, four bytes per pixel.
#[derive(Clone, Debug)]
pub struct Image {
    pub name: String,
    pub width: u32,
    pub height: u32,
    pub pixels: Vec<u8>,
}

impl Image {
    /// The pixel buffer holds exactly `width * height` pixels.
    pub open spec fn wf(&self) -> bool {
        self.pixels@.len() == self.width as int * self.height as int * 4
    }

    /// Packing order: taller images come first, and among images of one
    /// height the wider one comes first.
    pub open spec fn precedes(&self, other: &Image) -> bool {
        self.height > other.height || (self.height == other.height && self.width >= other.width)
    }

    /// Decides whether the pixel buffer has the length that the extent asks
    /// for.
    pub fn is_well_formed(&self) -> (res: bool)
        ensures
            res == self.wf(),
    {
        let len: usize = self.pixels.len();
        assert(self.width * self.height <= 0xffff_ffff * 0xffff_ffff) by (nonlinear_arith)
            requires
                0 <= self.width <= 0xffff_ffff,
                0 <= self.height <= 0xffff_ffff,
        ;
        let area: u64 = (self.width as u64) * (self.height as u64);
        len % 4 == 0 && (len / 4) as u64 == area
    }

    /// Whether `self` may stand before `other` in packing order.
    pub fn comes_before(&self, other: &Image) -> (res: bool)
        ensures
            res == self.precedes(other),
    {
        self.height > other.height || (self.height == other.height && self.width >= other.width)
    }
}

/// `s` with `img` put in before the first image that `img` may stand before,
/// at the end where there is none.
pub open spec fn insert_ordered(s: Seq<Image>, img: Image) -> Seq<Image>
    decreases s.len(),
{
    if s.len() == 0 {
        seq![img]
    } else if img.precedes(&s[0]) {
        seq![img] + s
    } else {
        seq![s[0]] + insert_ordered(s.drop_first(), img)
    }
}

/// The images in packing order. Images that tie on both keys keep the order
/// they came in.
pub open spec fn packing_order(s: Seq<Image>) -> Seq<Image>
    decreases s.len(),
{
    if s.len() == 0 {
        Seq::empty()
    } else {
        insert_ordered(packing_order(s.drop_first()), s[0])
    }
}

/// No image of `s` stands behind one that must come later.
pub open spec fn ordered(s: Seq<Image>) -> bool {
    forall|i: int, j: int| #![trigger s[i], s[j]] 0 <= i < j < s.len() ==> s[i].precedes(&s[j])
}

/// Inserting at the first index whose image `img` may stand before is
/// `insert_ordered`.
pub proof fn lemma_insert_at(s: Seq<Image>, img: Image, j: int)
    requires
        0 <= j <= s.len(),
        forall|k: int| #![trigger s[k]] 0 <= k < j ==> !img.precedes(&s[k]),
        j < s.len() ==> img.precedes(&s[j]),
    ensures
        insert_ordered(s, img) =~= s.insert(j, img),
    decreases s.len(),
{
    if s.len() == 0 {
    } else if j == 0 {
    } else {
        let t = s.drop_first();
        assert forall|k: int| #![trigger t[k]] 0 <= k < j - 1 implies !img.precedes(&t[k]) by {
            assert(t[k] == s[k + 1]);
        }
        lemma_insert_at(t, img, j - 1);
    }
}

/// Sorts the images into packing order: the result holds the same images,
/// ordered by falling height and then falling width, and images that tie stay
/// in the order they came in.
pub fn sort_images(images: Vec<Image>) -> (sorted: Vec<Image>)
    ensures
        sorted@ == packing_order(images@),
        ordered(sorted@),
        sorted@.len() == images@.len(),
        sorted@.to_multiset() == images@.to_multiset(),
{
    let ghost orig = images@;
    let mut rest = images;
    let mut sorted: Vec<Image> = Vec::new();
    while rest.len() > 0
        invariant
            rest@ == orig.take(rest@.len() as int),
            rest@.len() <= orig.len(),
            sorted@ == packing_order(orig.skip(rest@.len() as int)),
        decreases rest@.len(),
    {
        let ghost before = rest@.len() as int;
        let img = rest.pop().unwrap();
        let mut j: usize = 0;
        while j < sorted.len() && !img.comes_before(&sorted[j])
            invariant
                j <= sorted@.len(),
                forall|k: int| #![trigger sorted@[k]] 0 <= k < j ==> !img.precedes(&sorted@[k]),
            decreases sorted@.len() - j,
        {
            j += 1;
        }
        proof {
            lemma_insert_at(sorted@, img, j as int);
            assert(orig.skip(before - 1).drop_first() =~= orig.skip(before));
            assert(orig.skip(before - 1)[0] == img);
            assert(rest@ =~= orig.take(before - 1));
        }
        sorted.insert(j, img);
    }
    proof {
        assert(orig.skip(0) =~= orig);
        lemma_packing_order_ordered(orig);
        lemma_packing_order_keeps(orig);
    }
    sorted
}

/// Inserting keeps every image, and adds the one inserted.
pub proof fn lemma_insert_ordered_keeps(s: Seq<Image>, img: Image)
    ensures
        insert_ordered(s, img).len() == s.len() + 1,
        insert_ordered(s, img).to_multiset() =~= s.to_multiset().insert(img),
    decreases s.len(),
{
    broadcast use vstd::seq_lib::group_to_multiset_ensures;

    if s.len() == 0 {
        assert(seq![img] =~= Seq::<Image>::empty().push(img));
        assert(s =~= Seq::<Image>::empty());
    } else if img.precedes(&s[0]) {
        assert(seq![img] + s =~= s.insert(0, img));
    } else {
        let t = s.drop_first();
        lemma_insert_ordered_keeps(t, img);
        let r = insert_ordered(t, img);
        assert(seq![s[0]] + r =~= r.insert(0, s[0]));
        assert(s =~= t.insert(0, s[0]));
    }
}

/// The packing order holds the images it was given, each as often as it came.
pub proof fn lemma_packing_order_keeps(s: Seq<Image>)
    ensures
        packing_order(s).len() == s.len(),
        packing_order(s).to_multiset() =~= s.to_multiset(),
        forall|i: int|
            #![trigger packing_order(s)[i]]
            0 <= i < s.len() ==> s.contains(packing_order(s)[i]),
    decreases s.len(),
{
    broadcast use vstd::seq_lib::group_to_multiset_ensures;

    if s.len() == 0 {
    } else {
        let t = s.drop_first();
        lemma_packing_order_keeps(t);
        lemma_insert_ordered_keeps(packing_order(t), s[0]);
        assert(s =~= t.insert(0, s[0]));
        let r = packing_order(s);
        assert forall|i: int| #![trigger r[i]] 0 <= i < s.len() implies s.contains(r[i]) by {
            assert(r.to_multiset().count(r[i]) > 0);
            assert(s.to_multiset().count(r[i]) > 0);
        }
    }
}

/// Inserting into an ordered sequence leaves it ordered.
pub proof fn lemma_insert_ordered_ordered(s: Seq<Image>, img: Image)
    requires
        ordered(s),
    ensures
        ordered(insert_ordered(s, img)),
    decreases s.len(),
{
    broadcast use vstd::seq_lib::group_to_multiset_ensures;

    if s.len() == 0 {
    } else if img.precedes(&s[0]) {
        let r = seq![img] + s;
        assert forall|i: int, j: int| #![trigger r[i], r[j]] 0 <= i < j < r.len() implies r[i].precedes(
            &r[j],
        ) by {
            assert(r[j] == s[j - 1]);
            if i > 0 {
                assert(r[i] == s[i - 1]);
            } else {
                assert(s[0].precedes(&s[0]));
                if j > 1 {
                    assert(s[0].precedes(&s[j - 1]));
                }
            }
        }
    } else {
        let t = s.drop_first();
        assert forall|i: int, j: int| #![trigger t[i], t[j]] 0 <= i < j < t.len() implies t[i].precedes(
            &t[j],
        ) by {
            assert(t[i] == s[i + 1] && t[j] == s[j + 1]);
        }
        lemma_insert_ordered_ordered(t, img);
        lemma_insert_ordered_keeps(t, img);
        let inner = insert_ordered(t, img);
        let r = seq![s[0]] + inner;
        assert forall|i: int, j: int| #![trigger r[i], r[j]] 0 <= i < j < r.len() implies r[i].precedes(
            &r[j],
        ) by {
            assert(r[j] == inner[j - 1]);
            if i > 0 {
                assert(r[i] == inner[i - 1]);
            } else {
                let e = inner[j - 1];
                assert(inner.to_multiset().count(e) > 0);
                if e != img {
                    assert(t.to_multiset().count(e) > 0);
                    assert(t.contains(e));
                    let m = choose|m: int| 0 <= m < t.len() && t[m] == e;
                    assert(t[m] == s[m + 1]);
                    assert(s[0].precedes(&s[m + 1]));
                }
            }
        }
    }
}

/// The packing order is ordered: heights never rise along it, and within one
/// height widths never rise.
pub proof fn lemma_packing_order_ordered(s: Seq<Image>)
    ensures
        ordered(packing_order(s)),
    decreases s.len(),
{
    if s.len() > 0 {
        lemma_packing_order_ordered(s.drop_first());
        lemma_insert_ordered_ordered(packing_order(s.drop_first()), s[0]);
    }
}

} // verus!
