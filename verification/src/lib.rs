//! A bin-packing library for axis-aligned rectangles.
//!
//! Items are supplied as an ordered, read-only sequence of rectangles; a
//! packer places every item into a bin, recording for each item the bin it
//! landed in, the offset inside that bin, and whether the item was rotated
//! by 90 degrees. Each bin reports the tight bounding size of the items
//! placed in it.

#![allow(unused_imports)]

pub mod gen;
pub mod model;
pub mod util;

use vstd::prelude::*;

verus! {

use crate::model::{
    bin_add_model, bin_new_model, bins_valid, dims_of, pack_inputs_ok, sum_area, BinModel,
};
use crate::util::{orient, rect_area, rect_empty, rotate_rect, Rect, RotatableRect};

/// Represents an axis aligned rectangle to be packed in a bin.
pub trait AtlasRect {
    /// The dimensions of the rectangle, as seen by contracts.
    spec fn dims_spec(&self) -> Rect;

    /// The width size dimension of the rectangle.
    fn width(&self) -> (r: u32)
        ensures
            r == self.dims_spec().width,
    ;

    /// The height size dimension of the rectangle.
    fn height(&self) -> (r: u32)
        ensures
            r == self.dims_spec().height,
    ;

    /// Returns the total number of pixels this rectangle takes up.
    fn area(&self) -> (r: u64)
        ensures
            r == rect_area(self.dims_spec()),
    {
        let w = self.width();
        let h = self.height();
        proof {
            assert((w as int) * (h as int) <= (u32::MAX as int) * (u32::MAX as int))
                by (nonlinear_arith)
                requires
                    w <= u32::MAX,
                    h <= u32::MAX,
            ;
        }
        (w as u64) * (h as u64)
    }

    /// Returns true if this rectangle has an area of 0.
    fn empty(&self) -> (r: bool)
        ensures
            r == rect_empty(self.dims_spec()),
    {
        self.width() == 0 || self.height() == 0
    }

    /// Returns the dimensions of this rectangle.
    fn dimensions(&self) -> (r: Rect)
        ensures
            r == self.dims_spec(),
    {
        Rect::new(self.width(), self.height())
    }

    /// Returns the dimensions of this rect with width and height inverted if
    /// `rotate` is `true`.
    fn dimensions_rotated(&self, rotate: bool) -> (r: Rect)
        ensures
            r == rotate_rect(self.dims_spec(), rotate),
    {
        if !rotate {
            self.dimensions()
        } else {
            Rect::new(self.height(), self.width())
        }
    }

    /// Returns a rect with the longest dimension being its width and its
    /// other being its height.
    fn dimensions_longest(&self) -> (r: RotatableRect)
        ensures
            r == orient(self.dims_spec(), true),
    {
        self.dimensions_longest_rotated(true)
    }

    /// Returns `dimensions_longest` if `rotate` is true or `dimensions`
    /// otherwise.
    fn dimensions_longest_rotated(&self, rotate: bool) -> (r: RotatableRect)
        ensures
            r == orient(self.dims_spec(), rotate),
    {
        if (self.width() >= self.height() && rotate) || !rotate {
            RotatableRect::new(self.width(), self.height(), false)
        } else {
            RotatableRect::new(self.height(), self.width(), true)
        }
    }
}

/// References an axis aligned rect placed in a bin by index.
#[derive(Clone, Copy, Debug, PartialEq, Eq, Structural)]
pub struct AtlasPart {
    /// The index of the original rect list that this placement references.
    pub rect_index: usize,
    /// The x-position where this rect is located in the bin.
    pub x: u32,
    /// The y-position where this rect is located in the bin.
    pub y: u32,
    /// Whether the rect is rotated 90 degrees clockwise.
    pub rotate: bool,
}

/// A packed bin containing references to rects.
///
/// This class tracks the rects added to itself. After each rect is added, it
/// increases its bounding size if necessary. The bin size is the minimum
/// bounding size, capable of encapsulating all placements; generators
/// guarantee through their contracts that placements are disjoint and stay
/// inside the bounds.
#[derive(Debug)]
pub struct AtlasBin {
    /// The bounding dimensions of the bin.
    dimensions: Rect,
    /// The list of referenced rects in this bin.
    part_list: Vec<AtlasPart>,
}

impl View for AtlasBin {
    type V = BinModel;

    closed spec fn view(&self) -> BinModel {
        BinModel { dims: self.dimensions, parts: self.part_list@ }
    }
}

impl AtlasBin {
    /// Initializes a new bin with the given rect at the top left of the bin.
    fn new(rect_index: usize, dimensions: Rect, rotate: bool) -> (r: Self)
        ensures
            r@ == bin_new_model(rect_index, dimensions, rotate),
    {
        let part = AtlasPart { rect_index, x: 0, y: 0, rotate };
        let r = AtlasBin { dimensions, part_list: vec![part] };
        proof {
            assert(r.part_list@ =~= seq![part]);
        }
        r
    }

    /// Returns the current bounding dimensions of the bin.
    pub fn dimensions(&self) -> (r: Rect)
        ensures
            r == self@.dims,
    {
        self.dimensions
    }

    /// Returns the parts in this bin.
    pub fn part_list(&self) -> (r: &[AtlasPart])
        ensures
            r@ == self@.parts,
    {
        self.part_list.as_slice()
    }

    /// Adds a new rect to the bin. The size of the bin increases if
    /// mandatory.
    fn part_add(&mut self, rect_index: usize, x: u32, y: u32, dimensions: Rect, rotate: bool)
        requires
            x + dimensions.width <= u32::MAX,
            y + dimensions.height <= u32::MAX,
        ensures
            final(self)@ == bin_add_model(old(self)@, rect_index, x, y, dimensions, rotate),
    {
        let new_width = x + dimensions.width;
        let new_height = y + dimensions.height;
        if self.dimensions.width < new_width {
            self.dimensions.width = new_width;
        }
        if self.dimensions.height < new_height {
            self.dimensions.height = new_height;
        }
        self.part_list.push(AtlasPart { rect_index, x, y, rotate });
    }
}

impl AtlasRect for AtlasBin {
    open spec fn dims_spec(&self) -> Rect {
        self@.dims
    }

    fn width(&self) -> u32 {
        self.dimensions.width
    }

    fn height(&self) -> u32 {
        self.dimensions.height
    }
}

impl AtlasRect for Rect {
    open spec fn dims_spec(&self) -> Rect {
        *self
    }

    fn width(&self) -> u32 {
        self.width
    }

    fn height(&self) -> u32 {
        self.height
    }
}

impl AtlasRect for RotatableRect {
    open spec fn dims_spec(&self) -> Rect {
        self.rect
    }

    fn width(&self) -> u32 {
        self.rect.width
    }

    fn height(&self) -> u32 {
        self.rect.height
    }
}

/// Generates a texture atlas using a bin packing algorithm.
pub trait AtlasGenerator {
    /// The bins this generator produces for the given item dimensions and
    /// constraints. Each generator pins its output down to a function of the
    /// inputs, which makes packing deterministic.
    spec fn bins_spec(&self, rects: Seq<Rect>, width: u32, height: u32, rotate: bool) -> Seq<
        BinModel,
    >;

    /// The bins this generator produces are a well-formed packing of the
    /// items: every item is placed exactly once, placements of a bin are
    /// pairwise disjoint, bounding sizes are tight, and there are never more
    /// bins than items.
    proof fn bins_spec_valid(&self, rects: Seq<Rect>, width: u32, height: u32, rotate: bool)
        requires
            pack_inputs_ok(rects, width, height, rotate),
        ensures
            bins_valid(self.bins_spec(rects, width, height, rotate), rects, rotate),
    ;

    /// Generates a list of bins for the given atlas.
    fn generate<T: AtlasRect>(&self, atlas: &mut Atlas<T>, width: u32, height: u32, rotate: bool)
        requires
            old(atlas).bins().len() == 0,
            pack_inputs_ok(old(atlas).rects(), width, height, rotate),
        ensures
            final(atlas).items() == old(atlas).items(),
            final(atlas).bins() == self.bins_spec(old(atlas).rects(), width, height, rotate),
    ;
}

/// Completeness: whichever generator is used, every item index is
/// referenced by exactly one placement across all bins of the result, and
/// no placement references an item outside the list.
pub proof fn lemma_generator_complete<G: AtlasGenerator>(
    g: &G,
    rects: Seq<Rect>,
    width: u32,
    height: u32,
    rotate: bool,
)
    requires
        pack_inputs_ok(rects, width, height, rotate),
    ensures
        forall|v: int|
            #[trigger] crate::model::index_count(g.bins_spec(rects, width, height, rotate), v)
                == (if 0 <= v < rects.len() {
                1nat
            } else {
                0nat
            }),
{
    g.bins_spec_valid(rects, width, height, rotate);
}

/// Non-overlap: within any bin of the result, the footprints of two
/// distinct placements (after rotation) never intersect.
pub proof fn lemma_generator_no_overlap<G: AtlasGenerator>(
    g: &G,
    rects: Seq<Rect>,
    width: u32,
    height: u32,
    rotate: bool,
)
    requires
        pack_inputs_ok(rects, width, height, rotate),
    ensures
        forall|b: int, i: int, j: int|
            0 <= b < g.bins_spec(rects, width, height, rotate).len() && 0 <= i < j < g.bins_spec(
                rects,
                width,
                height,
                rotate,
            )[b].parts.len() ==> crate::model::parts_disjoint(
                #[trigger] g.bins_spec(rects, width, height, rotate)[b].parts[i],
                #[trigger] g.bins_spec(rects, width, height, rotate)[b].parts[j],
                rects,
            ),
{
    g.bins_spec_valid(rects, width, height, rotate);
    let bins = g.bins_spec(rects, width, height, rotate);
    assert forall|b: int, i: int, j: int|
        0 <= b < bins.len() && 0 <= i < j < bins[b].parts.len() implies crate::model::parts_disjoint(
        #[trigger] bins[b].parts[i],
        #[trigger] bins[b].parts[j],
        rects,
    ) by {
        assert(crate::model::bin_ok(bins[b], rects, rotate));
    }
}

/// Bound-tightness: each bin of the result reports exactly the
/// component-wise maximum of its placements' far corners, and every
/// placement lies inside the reported bounds.
pub proof fn lemma_generator_bounds_tight<G: AtlasGenerator>(
    g: &G,
    rects: Seq<Rect>,
    width: u32,
    height: u32,
    rotate: bool,
)
    requires
        pack_inputs_ok(rects, width, height, rotate),
    ensures
        forall|b: int|
            0 <= b < g.bins_spec(rects, width, height, rotate).len()
                ==> (#[trigger] g.bins_spec(rects, width, height, rotate)[b]).dims.width
                == crate::model::parts_max_width(
                g.bins_spec(rects, width, height, rotate)[b].parts,
                rects,
            ) && g.bins_spec(rects, width, height, rotate)[b].dims.height
                == crate::model::parts_max_height(
                g.bins_spec(rects, width, height, rotate)[b].parts,
                rects,
            ),
        forall|b: int, i: int|
            0 <= b < g.bins_spec(rects, width, height, rotate).len() && 0 <= i < g.bins_spec(
                rects,
                width,
                height,
                rotate,
            )[b].parts.len() ==> {
                let p = #[trigger] g.bins_spec(rects, width, height, rotate)[b].parts[i];
                p.x + crate::model::part_rect(p, rects).width <= g.bins_spec(
                    rects,
                    width,
                    height,
                    rotate,
                )[b].dims.width && p.y + crate::model::part_rect(p, rects).height <= g.bins_spec(
                    rects,
                    width,
                    height,
                    rotate,
                )[b].dims.height
            },
{
    g.bins_spec_valid(rects, width, height, rotate);
    let bins = g.bins_spec(rects, width, height, rotate);
    assert forall|b: int, i: int|
        0 <= b < bins.len() && 0 <= i < bins[b].parts.len() implies {
        let p = #[trigger] bins[b].parts[i];
        p.x + crate::model::part_rect(p, rects).width <= bins[b].dims.width && p.y
            + crate::model::part_rect(p, rects).height <= bins[b].dims.height
    } by {
        assert(crate::model::bin_ok(bins[b], rects, rotate));
        crate::model::lemma_parts_within_bounds(bins[b], rects, rotate, i);
    }
}

/// Bin-count bound: no generator ever produces more bins than there are
/// items, and it produces no bins exactly when there are no items.
pub proof fn lemma_generator_bin_count<G: AtlasGenerator>(
    g: &G,
    rects: Seq<Rect>,
    width: u32,
    height: u32,
    rotate: bool,
)
    requires
        pack_inputs_ok(rects, width, height, rotate),
    ensures
        g.bins_spec(rects, width, height, rotate).len() <= rects.len(),
        g.bins_spec(rects, width, height, rotate).len() == 0 <==> rects.len() == 0,
{
    g.bins_spec_valid(rects, width, height, rotate);
}

/// Rotation legality: when rotation is disabled, every placement of the
/// result has its rotated flag cleared.
pub proof fn lemma_generator_rotation_legal<G: AtlasGenerator>(
    g: &G,
    rects: Seq<Rect>,
    width: u32,
    height: u32,
)
    requires
        pack_inputs_ok(rects, width, height, false),
    ensures
        forall|b: int, i: int|
            0 <= b < g.bins_spec(rects, width, height, false).len() && 0 <= i < g.bins_spec(
                rects,
                width,
                height,
                false,
            )[b].parts.len() ==> (#[trigger] g.bins_spec(rects, width, height, false)[b].parts[i]).rotate
                == false,
{
    g.bins_spec_valid(rects, width, height, false);
    let bins = g.bins_spec(rects, width, height, false);
    assert forall|b: int, i: int|
        0 <= b < bins.len() && 0 <= i < bins[b].parts.len() implies (#[trigger] bins[b].parts[i]).rotate
        == false by {
        assert(crate::model::bin_ok(bins[b], rects, false));
        assert(crate::model::part_ok(bins[b].parts[i], rects, false));
    }
}

/// List data structure for adding rects.
///
/// This data structure is essentially a wrapper on `Vec<T>` with the
/// difference that it tracks the total area of all rects in order to
/// calculate a lower bound of the number of bins. By using a lower bound, an
/// atlas may potentially re-allocate less.
pub struct AtlasRectList<T: AtlasRect> {
    rect_list: Vec<T>,
    total_area: u64,
}

impl<T: AtlasRect> AtlasRectList<T> {
    /// The rects added to the list so far, as seen by contracts.
    pub closed spec fn items(&self) -> Seq<T> {
        self.rect_list@
    }

    /// The tracked running area matches the rects in the list.
    pub closed spec fn wf(&self) -> bool {
        self.total_area == sum_area(dims_of(self.items()))
    }

    /// Constructs a new, empty list.
    pub fn new() -> (r: Self)
        ensures
            r.wf(),
            r.items() =~= Seq::<T>::empty(),
    {
        let r = AtlasRectList { rect_list: Vec::new(), total_area: 0 };
        proof {
            assert(dims_of(r.rect_list@) =~= Seq::<Rect>::empty());
        }
        r
    }

    /// Constructs a new, empty list with the specified capacity.
    pub fn with_capacity(capacity: usize) -> (r: Self)
        ensures
            r.wf(),
            r.items() =~= Seq::<T>::empty(),
    {
        let r = AtlasRectList { rect_list: Vec::with_capacity(capacity), total_area: 0 };
        proof {
            assert(dims_of(r.rect_list@) =~= Seq::<Rect>::empty());
        }
        r
    }

    /// Returns the number of rects in the list.
    pub fn len(&self) -> (r: usize)
        ensures
            r == self.items().len(),
    {
        self.rect_list.len()
    }

    /// Adds the given rect to the list and potentially increases the lower
    /// bound.
    pub fn add(&mut self, rect: T)
        requires
            old(self).wf(),
            sum_area(dims_of(old(self).items())) + rect_area(rect.dims_spec()) <= u64::MAX,
        ensures
            final(self).wf(),
            final(self).items() == old(self).items().push(rect),
    {
        let area = rect.area();
        proof {
            crate::model::lemma_sum_area_push(dims_of(self.items()), rect.dims_spec());
            assert(dims_of(self.items().push(rect)) =~= dims_of(self.items()).push(
                rect.dims_spec(),
            ));
        }
        self.total_area = self.total_area + area;
        self.rect_list.push(rect);
    }

    /// Returns the total area of all rects in this list combined.
    pub fn total_area(&self) -> (r: u64)
        requires
            self.wf(),
        ensures
            r == sum_area(dims_of(self.items())),
    {
        self.total_area
    }

    /// Returns the lower bound of bins needed for the rects in this list.
    pub fn lower_bound(&self, size: Rect) -> (r: usize)
        requires
            self.wf(),
            !rect_empty(size),
            sum_area(dims_of(self.items())) / rect_area(size) + 1 <= usize::MAX,
        ensures
            r == sum_area(dims_of(self.items())) / rect_area(size) + 1,
    {
        let area = size.area();
        proof {
            assert(rect_area(size) > 0) by (nonlinear_arith)
                requires
                    size.width > 0,
                    size.height > 0,
            ;
        }
        ((self.total_area / area) + 1) as usize
    }

    /// Returns an atlas builder using this rect list and given constraints.
    pub fn build(&self, width: u32, height: u32, rotate: bool) -> (b: AtlasBuilder<'_, T>)
        requires
            self.wf(),
            width > 0,
            height > 0,
            sum_area(dims_of(self.items())) / rect_area((Rect { width, height })) + 1
                <= usize::MAX,
        ensures
            b.items() == self.items(),
            b.width_spec() == width,
            b.height_spec() == height,
            b.rotate_spec() == rotate,
    {
        let lower_bound = self.lower_bound(Rect::new(width, height));
        AtlasBuilder::new(self.rect_list.as_slice(), width, height, rotate, lower_bound)
    }
}

/// Stores settings for generating an `Atlas`.
///
/// The builder takes a few constraints. It takes a maximal width and height
/// constraint, which atlas generators are not expected to exceed. It also
/// takes a flag indicating whether or not rotations should be allowed by
/// generators.
pub struct AtlasBuilder<'a, T: AtlasRect> {
    rect_list: &'a [T],
    width: u32,
    height: u32,
    lower_bound: usize,
    rotate: bool,
}

impl<'a, T: AtlasRect> AtlasBuilder<'a, T> {
    /// The items handed to generators, as seen by contracts.
    pub closed spec fn items(&self) -> Seq<T> {
        self.rect_list@
    }

    /// The maximum bin width handed to generators.
    pub closed spec fn width_spec(&self) -> u32 {
        self.width
    }

    /// The maximum bin height handed to generators.
    pub closed spec fn height_spec(&self) -> u32 {
        self.height
    }

    /// Whether generators are allowed to rotate items.
    pub closed spec fn rotate_spec(&self) -> bool {
        self.rotate
    }

    fn new(rect_list: &'a [T], width: u32, height: u32, rotate: bool, lower_bound: usize) -> (b:
        Self)
        ensures
            b.items() == rect_list@,
            b.width_spec() == width,
            b.height_spec() == height,
            b.rotate_spec() == rotate,
    {
        AtlasBuilder { rect_list, width, height, lower_bound, rotate }
    }

    /// Generates bins using the given generator.
    pub fn generate<G: AtlasGenerator>(self, generator: &G) -> (atlas: Atlas<'a, T>)
        requires
            pack_inputs_ok(
                dims_of(self.items()),
                self.width_spec(),
                self.height_spec(),
                self.rotate_spec(),
            ),
        ensures
            atlas.items() == self.items(),
            atlas.bins() == generator.bins_spec(
                dims_of(self.items()),
                self.width_spec(),
                self.height_spec(),
                self.rotate_spec(),
            ),
            bins_valid(atlas.bins(), dims_of(self.items()), self.rotate_spec()),
    {
        let mut atlas = Atlas { rect_list: self.rect_list, bin_list: Vec::with_capacity(self.lower_bound) };
        proof {
            assert(atlas.bins() =~= Seq::<BinModel>::empty());
            generator.bins_spec_valid(
                dims_of(self.items()),
                self.width_spec(),
                self.height_spec(),
                self.rotate_spec(),
            );
        }
        generator.generate(&mut atlas, self.width, self.height, self.rotate);
        atlas
    }
}

/// Encapsulates axis aligned rectangles and generated bins.
pub struct Atlas<'a, T: AtlasRect> {
    rect_list: &'a [T],
    bin_list: Vec<AtlasBin>,
}

impl<'a, T: AtlasRect> Atlas<'a, T> {
    /// The items this atlas packs, as seen by contracts.
    pub closed spec fn items(&self) -> Seq<T> {
        self.rect_list@
    }

    /// The dimensions of the items this atlas packs.
    pub open spec fn rects(&self) -> Seq<Rect> {
        dims_of(self.items())
    }

    /// The bins generated so far, as seen by contracts.
    pub closed spec fn bins(&self) -> Seq<BinModel> {
        self.bin_list@.map_values(|b: AtlasBin| b@)
    }

    /// Returns a builder instance with the given size constraints.
    pub fn build(rect_list: &'a [T], width: u32, height: u32, rotate: bool) -> (b: AtlasBuilder<
        'a,
        T,
    >)
        ensures
            b.items() == rect_list@,
            b.width_spec() == width,
            b.height_spec() == height,
            b.rotate_spec() == rotate,
    {
        AtlasBuilder::new(rect_list, width, height, rotate, 1)
    }

    /// Creates a new atlas with the given axis-aligned rectangles.
    pub fn new(rect_list: &'a [T]) -> (r: Self)
        ensures
            r.items() == rect_list@,
            r.bins() =~= Seq::<BinModel>::empty(),
    {
        Self { rect_list, bin_list: Vec::new() }
    }

    /// Returns the list of axis-aligned rectangles that are part of the
    /// atlas.
    pub fn rect_list(&self) -> (r: &[T])
        ensures
            r@ == self.items(),
    {
        self.rect_list
    }

    /// Returns the bins that reference the rects.
    pub fn bin_list(&self) -> (r: &[AtlasBin])
        ensures
            r@.len() == self.bins().len(),
            forall|i: int| 0 <= i < r@.len() ==> (#[trigger] r@[i])@ == self.bins()[i],
    {
        self.bin_list.as_slice()
    }

    /// Creates a new bin with the given rect at the top left.
    pub fn bin_add_new(&mut self, rect_index: usize, rotate: bool) -> (bin_index: usize)
        requires
            rect_index < old(self).items().len(),
        ensures
            final(self).items() == old(self).items(),
            bin_index == old(self).bins().len(),
            final(self).bins() =~= old(self).bins().push(
                bin_new_model(
                    rect_index,
                    rotate_rect(old(self).rects()[rect_index as int], rotate),
                    rotate,
                ),
            ),
    {
        let bin_index = self.bin_list.len();
        let dimensions = self.rect_list[rect_index].dimensions_rotated(rotate);
        self.bin_list.push(AtlasBin::new(rect_index, dimensions, rotate));
        bin_index
    }

    /// Adds a new rect to the indicated bin.
    pub fn bin_add_rect(&mut self, bin_index: usize, rect_index: usize, x: u32, y: u32, rotate: bool)
        requires
            bin_index < old(self).bins().len(),
            rect_index < old(self).items().len(),
            x + rotate_rect(old(self).rects()[rect_index as int], rotate).width <= u32::MAX,
            y + rotate_rect(old(self).rects()[rect_index as int], rotate).height <= u32::MAX,
        ensures
            final(self).items() == old(self).items(),
            final(self).bins() =~= old(self).bins().update(
                bin_index as int,
                bin_add_model(
                    old(self).bins()[bin_index as int],
                    rect_index,
                    x,
                    y,
                    rotate_rect(old(self).rects()[rect_index as int], rotate),
                    rotate,
                ),
            ),
    {
        let dimensions = self.rect_list[rect_index].dimensions_rotated(rotate);
        let bin = vstd::std_specs::vec::vec_index_mut(&mut self.bin_list, bin_index);
        bin.part_add(rect_index, x, y, dimensions, rotate);
    }
}

} // verus!
