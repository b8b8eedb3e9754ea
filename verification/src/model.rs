//! The mathematical model of bins and placements.
//!
//! Contracts in this crate describe an [`crate::AtlasBin`] by a [`BinModel`]:
//! its bounding dimensions together with the sequence of placements it
//! holds. The predicates here say what a well-formed packing result looks
//! like: every item placed exactly once, placements of one bin pairwise
//! disjoint, and bounding dimensions that are the component-wise maximum of
//! the placements' far corners.

use vstd::prelude::*;

verus! {

use crate::util::{rect_area, rect_empty, orient, rotate_rect, Rect};
use crate::{AtlasPart, AtlasRect};

/// The dimensions of each item in a sequence, in order.
pub open spec fn dims_of<T: AtlasRect>(items: Seq<T>) -> Seq<Rect> {
    Seq::new(items.len(), |i: int| items[i].dims_spec())
}

/// The model of one bin: its bounding dimensions and its placements, in the
/// order they were added.
pub ghost struct BinModel {
    /// The bounding dimensions of the bin.
    pub dims: Rect,
    /// The placements recorded in the bin.
    pub parts: Seq<AtlasPart>,
}

/// The footprint of a placement: the dimensions of the item it references,
/// swapped iff the placement is rotated.
pub open spec fn part_rect(p: AtlasPart, rects: Seq<Rect>) -> Rect {
    rotate_rect(rects[p.rect_index as int], p.rotate)
}

/// True iff the footprints of two placements do not intersect.
pub open spec fn parts_disjoint(p: AtlasPart, q: AtlasPart, rects: Seq<Rect>) -> bool {
    ||| p.x + part_rect(p, rects).width <= q.x
    ||| q.x + part_rect(q, rects).width <= p.x
    ||| p.y + part_rect(p, rects).height <= q.y
    ||| q.y + part_rect(q, rects).height <= p.y
}

/// The maximum over all placements of `x + footprint width`; 0 when there
/// are no placements.
pub open spec fn parts_max_width(parts: Seq<AtlasPart>, rects: Seq<Rect>) -> int
    decreases parts.len(),
{
    if parts.len() == 0 {
        0
    } else {
        let prev = parts_max_width(parts.drop_last(), rects);
        let corner = parts.last().x + part_rect(parts.last(), rects).width;
        if prev >= corner {
            prev
        } else {
            corner
        }
    }
}

/// The maximum over all placements of `y + footprint height`; 0 when there
/// are no placements.
pub open spec fn parts_max_height(parts: Seq<AtlasPart>, rects: Seq<Rect>) -> int
    decreases parts.len(),
{
    if parts.len() == 0 {
        0
    } else {
        let prev = parts_max_height(parts.drop_last(), rects);
        let corner = parts.last().y + part_rect(parts.last(), rects).height;
        if prev >= corner {
            prev
        } else {
            corner
        }
    }
}

/// How many placements of `parts` reference item index `v`.
pub open spec fn index_count_in_parts(parts: Seq<AtlasPart>, v: int) -> nat
    decreases parts.len(),
{
    if parts.len() == 0 {
        0nat
    } else {
        index_count_in_parts(parts.drop_last(), v) + if parts.last().rect_index == v {
            1nat
        } else {
            0nat
        }
    }
}

/// How many placements across all of `bins` reference item index `v`.
pub open spec fn index_count(bins: Seq<BinModel>, v: int) -> nat
    decreases bins.len(),
{
    if bins.len() == 0 {
        0nat
    } else {
        index_count(bins.drop_last(), v) + index_count_in_parts(bins.last().parts, v)
    }
}

/// A placement references an existing item, and is unrotated whenever
/// rotation is disabled.
pub open spec fn part_ok(p: AtlasPart, rects: Seq<Rect>, rotate: bool) -> bool {
    &&& p.rect_index < rects.len()
    &&& (!rotate ==> p.rotate == false)
}

/// A well-formed bin: at least one placement, all placements valid and
/// pairwise disjoint, and dimensions that are the tight bounding size.
pub open spec fn bin_ok(b: BinModel, rects: Seq<Rect>, rotate: bool) -> bool {
    &&& b.parts.len() >= 1
    &&& forall|i: int| 0 <= i < b.parts.len() ==> part_ok(#[trigger] b.parts[i], rects, rotate)
    &&& forall|i: int, j: int|
        0 <= i < j < b.parts.len() ==> parts_disjoint(
            #[trigger] b.parts[i],
            #[trigger] b.parts[j],
            rects,
        )
    &&& b.dims.width == parts_max_width(b.parts, rects)
    &&& b.dims.height == parts_max_height(b.parts, rects)
}

/// A well-formed packing result for the given items: every bin is
/// well-formed, every item index appears in exactly one placement, and there
/// are never more bins than items (with no bins exactly when there are no
/// items).
pub open spec fn bins_valid(bins: Seq<BinModel>, rects: Seq<Rect>, rotate: bool) -> bool {
    &&& forall|b: int| 0 <= b < bins.len() ==> bin_ok(#[trigger] bins[b], rects, rotate)
    &&& forall|v: int|
        index_count(bins, v) == if 0 <= v < rects.len() {
            1nat
        } else {
            0nat
        }
    &&& bins.len() <= rects.len()
    &&& (bins.len() == 0 <==> rects.len() == 0)
}

/// The item's fixed orientation fits inside the maximum bin size.
pub open spec fn item_fits(d: Rect, width: u32, height: u32, rotate: bool) -> bool {
    &&& orient(d, rotate).rect.width <= width
    &&& orient(d, rotate).rect.height <= height
}

/// What a packer demands of its inputs: a positive maximum bin size, and
/// items that are non-degenerate and individually able to fit a bin.
pub open spec fn pack_inputs_ok(rects: Seq<Rect>, width: u32, height: u32, rotate: bool) -> bool {
    &&& width > 0
    &&& height > 0
    &&& rects.len() <= usize::MAX
    &&& forall|i: int|
        0 <= i < rects.len() ==> !rect_empty(#[trigger] rects[i]) && item_fits(
            rects[i],
            width,
            height,
            rotate,
        )
}

/// The summed area of a list of rectangles.
pub open spec fn sum_area(rects: Seq<Rect>) -> int
    decreases rects.len(),
{
    if rects.len() == 0 {
        0
    } else {
        sum_area(rects.drop_last()) + rect_area(rects.last())
    }
}

/// The model of a freshly opened bin holding one placement at the origin.
pub open spec fn bin_new_model(rect_index: usize, dims: Rect, rotate: bool) -> BinModel {
    BinModel { dims, parts: seq![AtlasPart { rect_index, x: 0, y: 0, rotate }] }
}

/// Bounding dimensions grown to cover a placement of `added` at `(x, y)`.
pub open spec fn grow_dims(d: Rect, x: u32, y: u32, added: Rect) -> Rect {
    Rect {
        width: if d.width >= x + added.width {
            d.width
        } else {
            (x + added.width) as u32
        },
        height: if d.height >= y + added.height {
            d.height
        } else {
            (y + added.height) as u32
        },
    }
}

/// The model of a bin after a placement of `added` at `(x, y)` is appended.
pub open spec fn bin_add_model(
    b: BinModel,
    rect_index: usize,
    x: u32,
    y: u32,
    added: Rect,
    rotate: bool,
) -> BinModel {
    BinModel {
        dims: grow_dims(b.dims, x, y, added),
        parts: b.parts.push(AtlasPart { rect_index, x, y, rotate }),
    }
}

/// Appending one rectangle adds its area to the sum.
pub proof fn lemma_sum_area_push(rects: Seq<Rect>, d: Rect)
    ensures
        sum_area(rects.push(d)) == sum_area(rects) + rect_area(d),
{
    assert(rects.push(d).drop_last() =~= rects);
}

/// Appending a placement adds one reference to its item index and none to
/// others.
pub proof fn lemma_index_count_in_parts_push(parts: Seq<AtlasPart>, p: AtlasPart, v: int)
    ensures
        index_count_in_parts(parts.push(p), v) == index_count_in_parts(parts, v) + if p.rect_index
            == v {
            1nat
        } else {
            0nat
        },
{
    assert(parts.push(p).drop_last() =~= parts);
}

/// A single placement references exactly its own item index.
pub proof fn lemma_index_count_singleton(p: AtlasPart, v: int)
    ensures
        index_count_in_parts(seq![p], v) == if p.rect_index == v {
            1nat
        } else {
            0nat
        },
{
    reveal_with_fuel(index_count_in_parts, 2);
    assert(seq![p].drop_last() =~= Seq::<AtlasPart>::empty());
}

/// Appending a bin adds that bin's references and no others.
pub proof fn lemma_index_count_push_bin(bins: Seq<BinModel>, b: BinModel, v: int)
    ensures
        index_count(bins.push(b), v) == index_count(bins, v) + index_count_in_parts(b.parts, v),
{
    assert(bins.push(b).drop_last() =~= bins);
}

/// Replacing one bin exchanges that bin's references for the new bin's.
pub proof fn lemma_index_count_update(bins: Seq<BinModel>, b: int, nb: BinModel, v: int)
    requires
        0 <= b < bins.len(),
    ensures
        index_count(bins.update(b, nb), v) + index_count_in_parts(bins[b].parts, v) == index_count(
            bins,
            v,
        ) + index_count_in_parts(nb.parts, v),
    decreases bins.len(),
{
    let ub = bins.update(b, nb);
    if b == bins.len() - 1 {
        assert(ub.drop_last() =~= bins.drop_last());
        assert(ub.last() == nb);
    } else {
        assert(ub.drop_last() =~= bins.drop_last().update(b, nb));
        assert(ub.last() == bins.last());
        lemma_index_count_update(bins.drop_last(), b, nb, v);
    }
}

/// A freshly opened bin, holding one placement of an existing item at the
/// origin, is well-formed.
pub proof fn lemma_new_bin_ok(rect_index: usize, rects: Seq<Rect>, flag: bool, rotate: bool)
    requires
        rect_index < rects.len(),
        !rotate ==> flag == false,
    ensures
        bin_ok(
            bin_new_model(rect_index, rotate_rect(rects[rect_index as int], flag), flag),
            rects,
            rotate,
        ),
{
    reveal_with_fuel(parts_max_width, 2);
    reveal_with_fuel(parts_max_height, 2);
    let b = bin_new_model(rect_index, rotate_rect(rects[rect_index as int], flag), flag);
    assert(b.parts.drop_last() =~= Seq::<AtlasPart>::empty());
    assert(parts_max_width(b.parts, rects) == b.dims.width);
    assert(parts_max_height(b.parts, rects) == b.dims.height);
}

/// Every placement of a well-formed bin lies within the bin's reported
/// bounding dimensions.
pub proof fn lemma_parts_within_bounds(b: BinModel, rects: Seq<Rect>, rotate: bool, i: int)
    requires
        bin_ok(b, rects, rotate),
        0 <= i < b.parts.len(),
    ensures
        b.parts[i].x + part_rect(b.parts[i], rects).width <= b.dims.width,
        b.parts[i].y + part_rect(b.parts[i], rects).height <= b.dims.height,
{
    lemma_parts_max_ge(b.parts, rects, i);
}

/// The component-wise maximum dominates each placement's far corner.
pub proof fn lemma_parts_max_ge(parts: Seq<AtlasPart>, rects: Seq<Rect>, i: int)
    requires
        0 <= i < parts.len(),
    ensures
        parts[i].x + part_rect(parts[i], rects).width <= parts_max_width(parts, rects),
        parts[i].y + part_rect(parts[i], rects).height <= parts_max_height(parts, rects),
    decreases parts.len(),
{
    if i < parts.len() - 1 {
        lemma_parts_max_ge(parts.drop_last(), rects, i);
    }
}

} // verus!
