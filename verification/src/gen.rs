//! Bin packing algorithm generator implementations.

use vstd::prelude::*;

pub mod binary_tree;

pub use binary_tree::BinaryTreeGenerator;

verus! {

use crate::model::{
    bin_new_model, bins_valid, index_count, index_count_in_parts, lemma_new_bin_ok, BinModel,
};
use crate::util::{rotate_rect, Rect};
use crate::{Atlas, AtlasGenerator, AtlasPart, AtlasRect};

/// The bins the passthrough generator produces: one bin per item, in item
/// order, each sized exactly to its item's unrotated dimensions.
pub open spec fn passthrough_bins(rects: Seq<Rect>) -> Seq<BinModel>
    decreases rects.len(),
{
    if rects.len() == 0 {
        Seq::empty()
    } else {
        passthrough_bins(rects.drop_last()).push(
            bin_new_model((rects.len() - 1) as usize, rects.last(), false),
        )
    }
}

/// Each item index is referenced by exactly one placement of the
/// passthrough result.
proof fn lemma_passthrough_count(rects: Seq<Rect>, v: int)
    requires
        rects.len() <= usize::MAX,
    ensures
        index_count(passthrough_bins(rects), v) == if 0 <= v < rects.len() {
            1nat
        } else {
            0nat
        },
    decreases rects.len(),
{
    reveal_with_fuel(index_count_in_parts, 2);
    if rects.len() > 0 {
        let bins = passthrough_bins(rects);
        lemma_passthrough_count(rects.drop_last(), v);
        assert(bins.drop_last() =~= passthrough_bins(rects.drop_last()));
        assert(bins.last().parts.drop_last() =~= Seq::<AtlasPart>::empty());
    }
}

/// The passthrough result has one bin per item, each a singleton bin of its
/// item.
proof fn lemma_passthrough_shape(rects: Seq<Rect>)
    requires
        rects.len() <= usize::MAX,
    ensures
        passthrough_bins(rects).len() == rects.len(),
        forall|b: int|
            0 <= b < rects.len() ==> #[trigger] passthrough_bins(rects)[b] == bin_new_model(
                b as usize,
                rects[b],
                false,
            ),
    decreases rects.len(),
{
    if rects.len() > 0 {
        lemma_passthrough_shape(rects.drop_last());
    }
}

/// The passthrough result is a well-formed packing.
pub proof fn lemma_passthrough_valid(rects: Seq<Rect>, rotate: bool)
    requires
        rects.len() <= usize::MAX,
    ensures
        bins_valid(passthrough_bins(rects), rects, rotate),
{
    let bins = passthrough_bins(rects);
    lemma_passthrough_shape(rects);
    assert forall|v: int|
        index_count(bins, v) == (if 0 <= v < rects.len() {
            1nat
        } else {
            0nat
        }) by {
        lemma_passthrough_count(rects, v);
    }
    assert forall|b: int| 0 <= b < bins.len() implies crate::model::bin_ok(
        #[trigger] bins[b],
        rects,
        rotate,
    ) by {
        assert(rotate_rect(rects[b], false) == rects[b]);
        lemma_new_bin_ok(b as usize, rects, false, rotate);
    }
}

/// A generator that creates a separate bin for each object.
pub struct PassthroughGenerator;

impl AtlasGenerator for PassthroughGenerator {
    open spec fn bins_spec(&self, rects: Seq<Rect>, width: u32, height: u32, rotate: bool) -> Seq<
        BinModel,
    > {
        passthrough_bins(rects)
    }

    proof fn bins_spec_valid(&self, rects: Seq<Rect>, width: u32, height: u32, rotate: bool) {
        lemma_passthrough_valid(rects, rotate);
    }

    fn generate<T: AtlasRect>(&self, atlas: &mut Atlas<T>, width: u32, height: u32, rotate: bool) {
        let n = atlas.rect_list().len();
        let mut rect_index: usize = 0;
        while rect_index < n
            invariant
                rect_index <= n,
                n == atlas.items().len(),
                atlas.items() == old(atlas).items(),
                atlas.bins() =~= passthrough_bins(atlas.rects().take(rect_index as int)),
            decreases n - rect_index,
        {
            atlas.bin_add_new(rect_index, false);
            proof {
                let rects = atlas.rects();
                assert(rects.take(rect_index + 1).drop_last() =~= rects.take(rect_index as int));
                assert(rects.take(rect_index + 1).last() == rects[rect_index as int]);
                assert(rotate_rect(rects[rect_index as int], false) == rects[rect_index as int]);
            }
            rect_index = rect_index + 1;
        }
        proof {
            assert(atlas.rects().take(n as int) =~= atlas.rects());
        }
    }
}

} // verus!
