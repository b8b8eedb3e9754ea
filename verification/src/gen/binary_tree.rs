//! The binary-tree bin packer.
//!
//! The packer keeps a flat list of leaves, each a maximal free rectangle
//! inside some bin's packing capacity. Items are sorted by descending
//! height (ties by descending width, further ties keep input order), then
//! placed one by one into the first leaf they fit; the leaf is subdivided
//! around the placed item. When no leaf fits, a fresh bin is opened whose
//! capacity leaf spans the full maximum bin size.

use vstd::prelude::*;

verus! {

use crate::model::{
    bin_add_model, bin_new_model, bin_ok, bins_valid, index_count, item_fits, lemma_index_count_in_parts_push,
    lemma_index_count_push_bin, lemma_index_count_singleton, lemma_index_count_update,
    lemma_new_bin_ok, pack_inputs_ok, part_rect, parts_disjoint, parts_max_height,
    parts_max_width, part_ok, BinModel,
};
use crate::util::{orient, rect_empty, rotate_rect, Rect, RotatableRect};
use crate::{Atlas, AtlasGenerator, AtlasPart, AtlasRect};

/// One item of the ordering pass: the index of the rect in the caller's
/// list together with the orientation fixed for it.
#[derive(Clone, Copy, Debug, PartialEq, Eq, Structural)]
pub struct RectReference {
    /// The index into the atlas' rect list.
    pub index: usize,
    /// The oriented dimensions chosen for the rect at sort time.
    pub rect: RotatableRect,
}

/// A leaf: one maximal free rectangle inside the packing capacity of the
/// bin `bin`.
#[derive(Clone, Copy, Debug, PartialEq, Eq, Structural)]
pub struct Rectr {
    /// The bin this free region belongs to.
    pub bin: usize,
    /// The left edge of the free region.
    pub x: u32,
    /// The top edge of the free region.
    pub y: u32,
    /// The width of the free region.
    pub width: u32,
    /// The height of the free region.
    pub height: u32,
}

impl Rectr {
    /// Builds a leaf from its bin and region.
    fn new(bin: usize, x: u32, y: u32, width: u32, height: u32) -> (r: Self)
        ensures
            r == (Rectr { bin, x, y, width, height }),
    {
        Rectr { bin, x, y, width, height }
    }

    /// Returns true iff the free region covers no pixels.
    fn empty(&self) -> (r: bool)
        ensures
            r == rectr_empty(*self),
    {
        self.width == 0 || self.height == 0
    }
}

/// True iff the leaf's free region covers no pixels.
pub open spec fn rectr_empty(l: Rectr) -> bool {
    l.width == 0 || l.height == 0
}

/// The sort order of the ordering pass: `a` comes strictly before `b` when
/// it is taller, or equally tall and wider.
pub open spec fn sorts_before(a: RotatableRect, b: RotatableRect) -> bool {
    ||| a.rect.height > b.rect.height
    ||| (a.rect.height == b.rect.height && a.rect.width > b.rect.width)
}

/// Stable insertion of `e` into `s`: `e` moves left past exactly the
/// elements it sorts strictly before, so equal keys keep their input order.
pub open spec fn insert_sorted(s: Seq<RectReference>, e: RectReference) -> Seq<RectReference>
    decreases s.len(),
{
    if s.len() == 0 {
        seq![e]
    } else if sorts_before(e.rect, s.last().rect) {
        insert_sorted(s.drop_last(), e).push(s.last())
    } else {
        s.push(e)
    }
}

/// The stable sort of the ordering pass, defined as insertion sort.
pub open spec fn sort_spec(s: Seq<RectReference>) -> Seq<RectReference>
    decreases s.len(),
{
    if s.len() == 0 {
        Seq::empty()
    } else {
        insert_sorted(sort_spec(s.drop_last()), s.last())
    }
}

/// The list the ordering pass builds before sorting: each item index paired
/// with its fixed orientation, in input order.
pub open spec fn oriented_list(rects: Seq<Rect>, rotate: bool) -> Seq<RectReference>
    decreases rects.len(),
{
    if rects.len() == 0 {
        Seq::empty()
    } else {
        oriented_list(rects.drop_last(), rotate).push(
            RectReference {
                index: (rects.len() - 1) as usize,
                rect: orient(rects.last(), rotate),
            },
        )
    }
}

/// An entry references an existing item and carries exactly the orientation
/// `orient` fixes for it.
pub open spec fn entry_ok(e: RectReference, rects: Seq<Rect>, rotate: bool) -> bool {
    &&& e.index < rects.len()
    &&& e.rect == orient(rects[e.index as int], rotate)
}

/// All entries of a sequence are valid for the given items.
pub open spec fn entries_ok(s: Seq<RectReference>, rects: Seq<Rect>, rotate: bool) -> bool {
    forall|i: int| 0 <= i < s.len() ==> entry_ok(#[trigger] s[i], rects, rotate)
}

/// How many entries of `s` reference item index `v`.
pub open spec fn entry_index_count(s: Seq<RectReference>, v: int) -> nat
    decreases s.len(),
{
    if s.len() == 0 {
        0nat
    } else {
        entry_index_count(s.drop_last(), v) + if s.last().index == v {
            1nat
        } else {
            0nat
        }
    }
}

/// Inserting an entry preserves validity and grows the length by one.
proof fn lemma_insert_sorted_ok(
    s: Seq<RectReference>,
    e: RectReference,
    rects: Seq<Rect>,
    rotate: bool,
)
    requires
        entries_ok(s, rects, rotate),
        entry_ok(e, rects, rotate),
    ensures
        entries_ok(insert_sorted(s, e), rects, rotate),
        insert_sorted(s, e).len() == s.len() + 1,
    decreases s.len(),
{
    if s.len() == 0 {
    } else if sorts_before(e.rect, s.last().rect) {
        assert(entries_ok(s.drop_last(), rects, rotate));
        lemma_insert_sorted_ok(s.drop_last(), e, rects, rotate);
    }
}

/// Inserting an entry adds one reference to its index and none to others.
proof fn lemma_insert_sorted_count(s: Seq<RectReference>, e: RectReference, v: int)
    ensures
        entry_index_count(insert_sorted(s, e), v) == entry_index_count(s, v) + if e.index == v {
            1nat
        } else {
            0nat
        },
    decreases s.len(),
{
    reveal_with_fuel(entry_index_count, 2);
    if s.len() == 0 {
        assert(seq![e].drop_last() =~= Seq::<RectReference>::empty());
    } else if sorts_before(e.rect, s.last().rect) {
        lemma_insert_sorted_count(s.drop_last(), e, v);
        let inner = insert_sorted(s.drop_last(), e);
        assert(inner.push(s.last()).drop_last() =~= inner);
    } else {
        assert(s.push(e).drop_last() =~= s);
    }
}

/// Sorting preserves validity and length.
proof fn lemma_sort_spec_ok(s: Seq<RectReference>, rects: Seq<Rect>, rotate: bool)
    requires
        entries_ok(s, rects, rotate),
    ensures
        entries_ok(sort_spec(s), rects, rotate),
        sort_spec(s).len() == s.len(),
    decreases s.len(),
{
    if s.len() > 0 {
        assert(entries_ok(s.drop_last(), rects, rotate));
        lemma_sort_spec_ok(s.drop_last(), rects, rotate);
        lemma_insert_sorted_ok(sort_spec(s.drop_last()), s.last(), rects, rotate);
    }
}

/// Sorting preserves how often each item index is referenced.
proof fn lemma_sort_spec_count(s: Seq<RectReference>, v: int)
    ensures
        entry_index_count(sort_spec(s), v) == entry_index_count(s, v),
    decreases s.len(),
{
    if s.len() > 0 {
        lemma_sort_spec_count(s.drop_last(), v);
        lemma_insert_sorted_count(sort_spec(s.drop_last()), s.last(), v);
    }
}

/// The ordering pass emits valid entries, one per item.
proof fn lemma_oriented_list_ok(rects: Seq<Rect>, rotate: bool)
    requires
        rects.len() <= usize::MAX,
    ensures
        oriented_list(rects, rotate).len() == rects.len(),
        entries_ok(oriented_list(rects, rotate), rects, rotate),
    decreases rects.len(),
{
    if rects.len() > 0 {
        lemma_oriented_list_ok(rects.drop_last(), rotate);
        let prev = oriented_list(rects.drop_last(), rotate);
        assert forall|i: int| 0 <= i < oriented_list(rects, rotate).len() implies entry_ok(
            #[trigger] oriented_list(rects, rotate)[i],
            rects,
            rotate,
        ) by {
            if i < rects.len() - 1 {
                assert(entry_ok(prev[i], rects.drop_last(), rotate));
                assert(rects.drop_last()[prev[i].index as int] == rects[prev[i].index as int]);
            }
        }
    }
}

/// The ordering pass references each item index exactly once.
proof fn lemma_oriented_list_count(rects: Seq<Rect>, rotate: bool, v: int)
    requires
        rects.len() <= usize::MAX,
    ensures
        entry_index_count(oriented_list(rects, rotate), v) == if 0 <= v < rects.len() {
            1nat
        } else {
            0nat
        },
    decreases rects.len(),
{
    if rects.len() > 0 {
        lemma_oriented_list_count(rects.drop_last(), rotate, v);
        let whole = oriented_list(rects, rotate);
        assert(whole.drop_last() =~= oriented_list(rects.drop_last(), rotate));
    }
}

/// If `e` sorts strictly before every element of `s` at or after position
/// `j` and not before the element just left of `j`, then the stable insert
/// puts `e` exactly at position `j`.
proof fn lemma_insert_sorted_at(s: Seq<RectReference>, e: RectReference, j: int)
    requires
        0 <= j <= s.len(),
        forall|k: int| j <= k < s.len() ==> sorts_before(e.rect, (#[trigger] s[k]).rect),
        j > 0 ==> !sorts_before(e.rect, s[j - 1].rect),
    ensures
        insert_sorted(s, e) == s.insert(j, e),
    decreases s.len(),
{
    if s.len() == 0 {
        assert(seq![e] =~= s.insert(0, e));
    } else if j == s.len() {
        assert(!sorts_before(e.rect, s.last().rect));
        assert(s.push(e) =~= s.insert(j, e));
    } else {
        assert(sorts_before(e.rect, s[s.len() - 1].rect));
        lemma_insert_sorted_at(s.drop_last(), e, j);
        assert(insert_sorted(s.drop_last(), e).push(s.last()) =~= s.insert(j, e));
    }
}

/// True iff an item of oriented size `w` by `h` fits into the leaf.
pub open spec fn leaf_fits(l: Rectr, w: u32, h: u32) -> bool {
    w <= l.width && h <= l.height
}

/// The index of the first leaf, in list order, that an item of oriented
/// size `w` by `h` fits into; -1 when none fits.
pub open spec fn find_leaf(leaves: Seq<Rectr>, w: u32, h: u32) -> int
    decreases leaves.len(),
{
    if leaves.len() == 0 {
        -1
    } else if leaf_fits(leaves[0], w, h) {
        0
    } else {
        let rest = find_leaf(leaves.drop_first(), w, h);
        if rest < 0 {
            -1
        } else {
            rest + 1
        }
    }
}

/// `find_leaf` returns -1 exactly when no leaf fits, and otherwise the
/// first fitting index.
proof fn lemma_find_leaf(leaves: Seq<Rectr>, w: u32, h: u32)
    ensures
        ({
            let r = find_leaf(leaves, w, h);
            &&& (r == -1 ==> forall|i: int|
                0 <= i < leaves.len() ==> !leaf_fits(#[trigger] leaves[i], w, h))
            &&& (r != -1 ==> 0 <= r < leaves.len() && leaf_fits(leaves[r], w, h) && forall|i: int|
                0 <= i < r ==> !leaf_fits(#[trigger] leaves[i], w, h))
        }),
    decreases leaves.len(),
{
    if leaves.len() > 0 && !leaf_fits(leaves[0], w, h) {
        let rest = find_leaf(leaves.drop_first(), w, h);
        lemma_find_leaf(leaves.drop_first(), w, h);
        if rest == -1 {
            assert forall|i: int| 0 <= i < leaves.len() implies !leaf_fits(
                #[trigger] leaves[i],
                w,
                h,
            ) by {
                if i > 0 {
                    assert(leaves.drop_first()[i - 1] == leaves[i]);
                }
            }
        } else {
            assert(leaves.drop_first()[rest] == leaves[rest + 1]);
            assert forall|i: int| 0 <= i < rest + 1 implies !leaf_fits(
                #[trigger] leaves[i],
                w,
                h,
            ) by {
                if i > 0 {
                    assert(leaves.drop_first()[i - 1] == leaves[i]);
                }
            }
        }
    }
}

/// The strip to the right of an item of oriented size `w` by `h` placed at
/// the leaf's origin: no taller than the item.
pub open spec fn leaf_left_of(l: Rectr, w: u32, h: u32) -> Rectr {
    Rectr { bin: l.bin, x: (l.x + w) as u32, y: l.y, width: (l.width - w) as u32, height: h }
}

/// The strip below an item of oriented size `w` by `h` placed at the
/// leaf's origin: it spans the leaf's full original width.
pub open spec fn leaf_bottom_of(l: Rectr, w: u32, h: u32) -> Rectr {
    Rectr { bin: l.bin, x: l.x, y: (l.y + h) as u32, width: l.width, height: (l.height - h) as u32 }
}

/// The leaf list after an item of oriented size `w` by `h` is placed at the
/// origin of leaf `i`: the leaf is replaced by the non-empty residual
/// strips, the bottom strip coming directly after the right strip.
pub open spec fn subdivide_spec(leaves: Seq<Rectr>, i: int, w: u32, h: u32) -> Seq<Rectr> {
    let left = leaf_left_of(leaves[i], w, h);
    let bottom = leaf_bottom_of(leaves[i], w, h);
    if !rectr_empty(left) && !rectr_empty(bottom) {
        leaves.update(i, left).insert(i + 1, bottom)
    } else if !rectr_empty(left) {
        leaves.update(i, left)
    } else if !rectr_empty(bottom) {
        leaves.update(i, bottom)
    } else {
        leaves.remove(i)
    }
}

/// The packer's whole working state: the bins produced so far and the
/// current free-space leaves.
#[verifier::ext_equal]
pub ghost struct PackState {
    /// The bins produced so far.
    pub bins: Seq<BinModel>,
    /// The free-space leaves, in scan order.
    pub leaves: Seq<Rectr>,
}

/// One step of the placement loop for an entry `e`: place into the first
/// fitting leaf and subdivide it, or open a new bin with a full-capacity
/// leaf, place at its origin and subdivide that.
pub open spec fn pack_step(st: PackState, e: RectReference, width: u32, height: u32) -> PackState {
    let w = e.rect.rect.width;
    let h = e.rect.rect.height;
    let li = find_leaf(st.leaves, w, h);
    if li >= 0 {
        let leaf = st.leaves[li];
        PackState {
            bins: st.bins.update(
                leaf.bin as int,
                bin_add_model(st.bins[leaf.bin as int], e.index, leaf.x, leaf.y, e.rect.rect, e.rect.rotated),
            ),
            leaves: subdivide_spec(st.leaves, li, w, h),
        }
    } else {
        let leaves2 = st.leaves.push(
            Rectr { bin: st.bins.len() as usize, x: 0, y: 0, width, height },
        );
        PackState {
            bins: st.bins.push(bin_new_model(e.index, e.rect.rect, e.rect.rotated)),
            leaves: subdivide_spec(leaves2, leaves2.len() - 1, w, h),
        }
    }
}

/// The packer's state after processing all entries in order, starting from
/// no bins and no leaves.
pub open spec fn pack_fold(entries: Seq<RectReference>, width: u32, height: u32) -> PackState
    decreases entries.len(),
{
    if entries.len() == 0 {
        PackState { bins: Seq::empty(), leaves: Seq::empty() }
    } else {
        pack_step(pack_fold(entries.drop_last(), width, height), entries.last(), width, height)
    }
}

/// The bins the binary-tree packer produces for the given items and
/// constraints.
pub open spec fn binary_tree_pack(rects: Seq<Rect>, width: u32, height: u32, rotate: bool) -> Seq<
    BinModel,
> {
    pack_fold(sort_spec(oriented_list(rects, rotate)), width, height).bins
}

/// A leaf references an existing bin and lies inside the maximum bin size.
pub open spec fn leaf_ok(l: Rectr, bin_count: int, width: u32, height: u32) -> bool {
    &&& l.bin < bin_count
    &&& l.x + l.width <= width
    &&& l.y + l.height <= height
}

/// Two leaves describe free regions that cannot both cover a pixel: they
/// belong to different bins or their regions do not intersect.
pub open spec fn leaves_disjoint(a: Rectr, b: Rectr) -> bool {
    ||| a.bin != b.bin
    ||| a.x + a.width <= b.x
    ||| b.x + b.width <= a.x
    ||| a.y + a.height <= b.y
    ||| b.y + b.height <= a.y
}

/// The leaf's free region does not intersect the placement's footprint.
pub open spec fn leaf_part_sep(l: Rectr, p: AtlasPart, rects: Seq<Rect>) -> bool {
    ||| p.x + part_rect(p, rects).width <= l.x
    ||| l.x + l.width <= p.x
    ||| p.y + part_rect(p, rects).height <= l.y
    ||| l.y + l.height <= p.y
}

/// The packer's working-state invariant: every leaf points at an existing
/// bin and stays inside the capacity box, leaves are pairwise disjoint,
/// every leaf is disjoint from every placement already made in its bin, and
/// every bin is well-formed.
pub open spec fn state_inv(
    st: PackState,
    rects: Seq<Rect>,
    width: u32,
    height: u32,
    rotate: bool,
) -> bool {
    &&& forall|i: int|
        0 <= i < st.leaves.len() ==> leaf_ok(
            #[trigger] st.leaves[i],
            st.bins.len() as int,
            width,
            height,
        )
    &&& forall|i: int, j: int|
        0 <= i < j < st.leaves.len() ==> leaves_disjoint(
            #[trigger] st.leaves[i],
            #[trigger] st.leaves[j],
        )
    &&& forall|i: int, k: int|
        0 <= i < st.leaves.len() && 0 <= k < st.bins[st.leaves[i].bin as int].parts.len()
            ==> leaf_part_sep(
            st.leaves[i],
            #[trigger] st.bins[st.leaves[i].bin as int].parts[k],
            rects,
        )
    &&& forall|b: int| 0 <= b < st.bins.len() ==> bin_ok(#[trigger] st.bins[b], rects, rotate)
}

/// The free region of `inner` lies inside the free region of `outer`, in
/// the same bin.
pub open spec fn rectr_within(inner: Rectr, outer: Rectr) -> bool {
    &&& inner.bin == outer.bin
    &&& outer.x <= inner.x
    &&& inner.x + inner.width <= outer.x + outer.width
    &&& outer.y <= inner.y
    &&& inner.y + inner.height <= outer.y + outer.height
}

/// A region inside a leaf is disjoint from whatever the leaf is disjoint
/// from.
proof fn lemma_within_disjoint(inner: Rectr, outer: Rectr, other: Rectr)
    requires
        rectr_within(inner, outer),
        leaves_disjoint(outer, other),
    ensures
        leaves_disjoint(inner, other),
        leaves_disjoint(other, inner),
{
}

/// A region inside a leaf is separated from whatever placement the leaf is
/// separated from.
proof fn lemma_within_sep(inner: Rectr, outer: Rectr, p: AtlasPart, rects: Seq<Rect>)
    requires
        rectr_within(inner, outer),
        leaf_part_sep(outer, p, rects),
    ensures
        leaf_part_sep(inner, p, rects),
{
}

/// Subdividing the leaf an item was just placed into restores the packer's
/// working-state invariant.
///
/// The state handed in is the intermediate one: the placement has already
/// been appended as the last part of the leaf's bin (so that leaf, and only
/// that leaf, may still overlap it), and the placement sits exactly at the
/// leaf's origin with the oriented size `w` by `h` that the leaf is being
/// subdivided by.
proof fn lemma_subdivide_inv(
    bins: Seq<BinModel>,
    leaves: Seq<Rectr>,
    li: int,
    w: u32,
    h: u32,
    rects: Seq<Rect>,
    width: u32,
    height: u32,
    rotate: bool,
)
    requires
        0 <= li < leaves.len(),
        w <= leaves[li].width,
        h <= leaves[li].height,
        forall|i: int|
            0 <= i < leaves.len() ==> leaf_ok(#[trigger] leaves[i], bins.len() as int, width, height),
        forall|i: int, j: int|
            0 <= i < j < leaves.len() ==> leaves_disjoint(
                #[trigger] leaves[i],
                #[trigger] leaves[j],
            ),
        forall|i: int, k: int|
            0 <= i < leaves.len() && 0 <= k < bins[leaves[i].bin as int].parts.len() && !(
            leaves[i].bin == leaves[li].bin && k == bins[leaves[li].bin as int].parts.len() - 1)
                ==> leaf_part_sep(
                leaves[i],
                #[trigger] bins[leaves[i].bin as int].parts[k],
                rects,
            ),
        bins[leaves[li].bin as int].parts.len() >= 1,
        ({
            let l = leaves[li];
            let p = bins[l.bin as int].parts.last();
            &&& p.x == l.x
            &&& p.y == l.y
            &&& part_rect(p, rects).width == w
            &&& part_rect(p, rects).height == h
        }),
        forall|b: int| 0 <= b < bins.len() ==> bin_ok(#[trigger] bins[b], rects, rotate),
    ensures
        state_inv(
            PackState { bins, leaves: subdivide_spec(leaves, li, w, h) },
            rects,
            width,
            height,
            rotate,
        ),
{
    let l = leaves[li];
    let p = bins[l.bin as int].parts.last();
    let pk = bins[l.bin as int].parts.len() - 1;
    let left = leaf_left_of(l, w, h);
    let bottom = leaf_bottom_of(l, w, h);
    let nl = subdivide_spec(leaves, li, w, h);

    // The casts in the strip constructors do not truncate: the leaf lies
    // inside the capacity box.
    assert(leaf_ok(l, bins.len() as int, width, height));
    assert(left.x == l.x + w && left.width == l.width - w);
    assert(bottom.y == l.y + h && bottom.height == l.height - h);
    assert(rectr_within(left, l));
    assert(rectr_within(bottom, l));

    // Both strips avoid the placement just made at the leaf's origin.
    assert(leaf_part_sep(left, p, rects));
    assert(leaf_part_sep(bottom, p, rects));
    assert(leaves_disjoint(left, bottom));

    // Each strip inherits the leaf's capacity bounds.
    assert(leaf_ok(left, bins.len() as int, width, height));
    assert(leaf_ok(bottom, bins.len() as int, width, height));

    // Each strip is disjoint from every other leaf.
    assert forall|j: int| 0 <= j < leaves.len() && j != li implies leaves_disjoint(
        left,
        #[trigger] leaves[j],
    ) && leaves_disjoint(leaves[j], left) && leaves_disjoint(bottom, leaves[j])
        && leaves_disjoint(leaves[j], bottom) by {
        if j < li {
            assert(leaves_disjoint(leaves[j], l));
        } else {
            assert(leaves_disjoint(l, leaves[j]));
        }
        lemma_within_disjoint(left, l, leaves[j]);
        lemma_within_disjoint(bottom, l, leaves[j]);
    }

    // Each strip is separated from every placement of its bin.
    assert forall|k: int| 0 <= k < bins[l.bin as int].parts.len() implies leaf_part_sep(
        left,
        #[trigger] bins[l.bin as int].parts[k],
        rects,
    ) && leaf_part_sep(bottom, bins[l.bin as int].parts[k], rects) by {
        if k == pk {
        } else {
            assert(leaf_part_sep(l, bins[leaves[li].bin as int].parts[k], rects));
            lemma_within_sep(left, l, bins[l.bin as int].parts[k], rects);
            lemma_within_sep(bottom, l, bins[l.bin as int].parts[k], rects);
        }
    }

    // Every other leaf is separated from every placement of its bin,
    // including the placement just made.
    assert forall|i: int, k: int|
        0 <= i < leaves.len() && i != li && 0 <= k
            < bins[leaves[i].bin as int].parts.len() implies leaf_part_sep(
        leaves[i],
        #[trigger] bins[leaves[i].bin as int].parts[k],
        rects,
    ) by {
        if leaves[i].bin == l.bin && k == pk {
            if i < li {
                assert(leaves_disjoint(leaves[i], l));
            } else {
                assert(leaves_disjoint(l, leaves[i]));
            }
            // The placement lies inside the leaf's free region, so the
            // other leaf's disjointness from this leaf separates it from
            // the placement as well.
            assert(leaf_part_sep(leaves[i], p, rects));
        }
    }

    if !rectr_empty(left) && !rectr_empty(bottom) {
        let u = leaves.update(li, left);
        u.insert_ensures(li + 1, bottom);
        assert(nl == u.insert(li + 1, bottom));
        assert forall|jj: int| 0 <= jj < nl.len() implies leaf_ok(
            #[trigger] nl[jj],
            bins.len() as int,
            width,
            height,
        ) by {
            if jj < li {
                assert(nl[jj] == leaves[jj]);
            } else if jj == li {
                assert(nl[jj] == left);
            } else if jj == li + 1 {
                assert(nl[jj] == bottom);
            } else {
                assert(nl[jj] == u[jj - 1] && u[jj - 1] == leaves[jj - 1]);
            }
        }
        assert forall|jj1: int, jj2: int| 0 <= jj1 < jj2 < nl.len() implies leaves_disjoint(
            #[trigger] nl[jj1],
            #[trigger] nl[jj2],
        ) by {
            let o1: int = if jj1 <= li + 1 {
                jj1
            } else {
                jj1 - 1
            };
            let o2: int = if jj2 <= li + 1 {
                jj2
            } else {
                jj2 - 1
            };
            if jj1 < li {
                assert(nl[jj1] == leaves[jj1]);
            }
            if jj2 > li + 1 {
                assert(nl[jj2] == u[jj2 - 1] && u[jj2 - 1] == leaves[jj2 - 1]);
            }
            if jj2 < li {
                assert(nl[jj2] == leaves[jj2]);
            }
            if jj1 > li + 1 {
                assert(nl[jj1] == u[jj1 - 1] && u[jj1 - 1] == leaves[jj1 - 1]);
            }
        }
        assert forall|jj: int, k: int|
            0 <= jj < nl.len() && 0 <= k
                < bins[nl[jj].bin as int].parts.len() implies leaf_part_sep(
            nl[jj],
            #[trigger] bins[nl[jj].bin as int].parts[k],
            rects,
        ) by {
            if jj < li {
                assert(nl[jj] == leaves[jj]);
            } else if jj == li {
                assert(nl[jj] == left);
            } else if jj == li + 1 {
                assert(nl[jj] == bottom);
            } else {
                assert(nl[jj] == u[jj - 1] && u[jj - 1] == leaves[jj - 1]);
            }
        }
    } else if !rectr_empty(left) {
        assert(nl == leaves.update(li, left));
        assert forall|jj: int, k: int|
            0 <= jj < nl.len() && 0 <= k
                < bins[nl[jj].bin as int].parts.len() implies leaf_part_sep(
            nl[jj],
            #[trigger] bins[nl[jj].bin as int].parts[k],
            rects,
        ) by {
            if jj != li {
                assert(nl[jj] == leaves[jj]);
            } else {
                assert(nl[jj] == left);
            }
        }
    } else if !rectr_empty(bottom) {
        assert(nl == leaves.update(li, bottom));
        assert forall|jj: int, k: int|
            0 <= jj < nl.len() && 0 <= k
                < bins[nl[jj].bin as int].parts.len() implies leaf_part_sep(
            nl[jj],
            #[trigger] bins[nl[jj].bin as int].parts[k],
            rects,
        ) by {
            if jj != li {
                assert(nl[jj] == leaves[jj]);
            } else {
                assert(nl[jj] == bottom);
            }
        }
    } else {
        leaves.remove_ensures(li);
        assert(nl == leaves.remove(li));
        assert forall|jj: int, k: int|
            0 <= jj < nl.len() && 0 <= k
                < bins[nl[jj].bin as int].parts.len() implies leaf_part_sep(
            nl[jj],
            #[trigger] bins[nl[jj].bin as int].parts[k],
            rects,
        ) by {
            if jj < li {
                assert(nl[jj] == leaves[jj]);
            } else {
                assert(nl[jj] == leaves[jj + 1]);
            }
        }
        assert forall|jj1: int, jj2: int| 0 <= jj1 < jj2 < nl.len() implies leaves_disjoint(
            #[trigger] nl[jj1],
            #[trigger] nl[jj2],
        ) by {
            if jj1 < li {
                assert(nl[jj1] == leaves[jj1]);
            } else {
                assert(nl[jj1] == leaves[jj1 + 1]);
            }
            if jj2 < li {
                assert(nl[jj2] == leaves[jj2]);
            } else {
                assert(nl[jj2] == leaves[jj2 + 1]);
            }
        }
    }
}

/// One placement step preserves the working-state invariant, adds exactly
/// one placement of the processed entry's item, and opens at most one bin.
proof fn lemma_pack_step_inv(
    st: PackState,
    e: RectReference,
    rects: Seq<Rect>,
    width: u32,
    height: u32,
    rotate: bool,
)
    requires
        state_inv(st, rects, width, height, rotate),
        st.bins.len() <= rects.len(),
        rects.len() <= usize::MAX,
        pack_inputs_ok(rects, width, height, rotate),
        entry_ok(e, rects, rotate),
    ensures
        state_inv(pack_step(st, e, width, height), rects, width, height, rotate),
        pack_step(st, e, width, height).bins.len() >= 1,
        st.bins.len() <= pack_step(st, e, width, height).bins.len() <= st.bins.len() + 1,
        forall|v: int|
            #[trigger] index_count(pack_step(st, e, width, height).bins, v) == index_count(
                st.bins,
                v,
            ) + (if e.index == v {
                1nat
            } else {
                0nat
            }),
{
    let w = e.rect.rect.width;
    let h = e.rect.rect.height;
    let d = rects[e.index as int];
    assert(!rect_empty(d) && item_fits(d, width, height, rotate));
    assert(rotate_rect(d, e.rect.rotated) == e.rect.rect);
    assert(0 < w <= width && 0 < h <= height);
    let li = find_leaf(st.leaves, w, h);
    lemma_find_leaf(st.leaves, w, h);
    let st2 = pack_step(st, e, width, height);
    if li >= 0 {
        let l = st.leaves[li];
        let b0 = st.bins[l.bin as int];
        let newp = AtlasPart { rect_index: e.index, x: l.x, y: l.y, rotate: e.rect.rotated };
        let nb = bin_add_model(b0, e.index, l.x, l.y, e.rect.rect, e.rect.rotated);
        let bins1 = st.bins.update(l.bin as int, nb);
        assert(leaf_ok(l, st.bins.len() as int, width, height));
        assert(part_rect(newp, rects) == e.rect.rect);
        assert(nb.parts == b0.parts.push(newp));
        assert(nb.parts.last() == newp);

        // The grown bin is still well-formed.
        assert(bin_ok(b0, rects, rotate));
        assert forall|i: int, j: int| 0 <= i < j < nb.parts.len() implies parts_disjoint(
            #[trigger] nb.parts[i],
            #[trigger] nb.parts[j],
            rects,
        ) by {
            if j == nb.parts.len() - 1 {
                assert(nb.parts[i] == b0.parts[i]);
                assert(leaf_part_sep(l, st.bins[st.leaves[li].bin as int].parts[i], rects));
            } else {
                assert(nb.parts[i] == b0.parts[i] && nb.parts[j] == b0.parts[j]);
            }
        }
        assert forall|i: int| 0 <= i < nb.parts.len() implies part_ok(
            #[trigger] nb.parts[i],
            rects,
            rotate,
        ) by {
            if i < nb.parts.len() - 1 {
                assert(nb.parts[i] == b0.parts[i]);
            }
        }
        assert(nb.parts.push(newp).drop_last() =~= nb.parts);
        assert(nb.parts.drop_last() =~= b0.parts);
        assert(parts_max_width(nb.parts, rects) == nb.dims.width);
        assert(parts_max_height(nb.parts, rects) == nb.dims.height);
        assert(bin_ok(nb, rects, rotate));
        assert forall|b: int| 0 <= b < bins1.len() implies bin_ok(
            #[trigger] bins1[b],
            rects,
            rotate,
        ) by {
            if b != l.bin as int {
                assert(bins1[b] == st.bins[b]);
            }
        }

        // Hand the intermediate state to the subdivision lemma.
        assert forall|i: int, k: int|
            0 <= i < st.leaves.len() && 0 <= k < bins1[st.leaves[i].bin as int].parts.len() && !(
            st.leaves[i].bin == st.leaves[li].bin && k == bins1[st.leaves[li].bin
                as int].parts.len() - 1) implies leaf_part_sep(
            st.leaves[i],
            #[trigger] bins1[st.leaves[i].bin as int].parts[k],
            rects,
        ) by {
            if st.leaves[i].bin == l.bin {
                assert(bins1[st.leaves[i].bin as int].parts[k] == b0.parts[k]);
                assert(leaf_part_sep(
                    st.leaves[i],
                    st.bins[st.leaves[i].bin as int].parts[k],
                    rects,
                ));
            } else {
                assert(bins1[st.leaves[i].bin as int] == st.bins[st.leaves[i].bin as int]);
                assert(leaf_part_sep(
                    st.leaves[i],
                    st.bins[st.leaves[i].bin as int].parts[k],
                    rects,
                ));
            }
        }
        lemma_subdivide_inv(bins1, st.leaves, li, w, h, rects, width, height, rotate);
        assert(st2.bins == bins1 && st2.leaves == subdivide_spec(st.leaves, li, w, h));

        // Counting: the one new placement references the entry's item.
        assert forall|v: int|
            #[trigger] index_count(st2.bins, v) == index_count(st.bins, v) + (if e.index == v {
                1nat
            } else {
                0nat
            }) by {
            lemma_index_count_update(st.bins, l.bin as int, nb, v);
            lemma_index_count_in_parts_push(b0.parts, newp, v);
        }
    } else {
        let nb = bin_new_model(e.index, e.rect.rect, e.rect.rotated);
        let bins2 = st.bins.push(nb);
        let newleaf = Rectr { bin: st.bins.len() as usize, x: 0, y: 0, width, height };
        let leaves2 = st.leaves.push(newleaf);
        let li2 = leaves2.len() - 1;
        assert(leaves2[li2] == newleaf);
        lemma_new_bin_ok(e.index, rects, e.rect.rotated, rotate);
        assert(bin_ok(nb, rects, rotate));
        assert forall|b: int| 0 <= b < bins2.len() implies bin_ok(
            #[trigger] bins2[b],
            rects,
            rotate,
        ) by {
            if b < st.bins.len() {
                assert(bins2[b] == st.bins[b]);
            } else {
                assert(bins2[b] == nb);
            }
        }
        assert(newleaf.bin as int == st.bins.len() as int);
        assert forall|i: int| 0 <= i < leaves2.len() implies leaf_ok(
            #[trigger] leaves2[i],
            bins2.len() as int,
            width,
            height,
        ) by {
            if i < st.leaves.len() {
                assert(leaves2[i] == st.leaves[i]);
                assert(leaf_ok(st.leaves[i], st.bins.len() as int, width, height));
            } else {
                assert(leaves2[i] == newleaf);
            }
        }
        assert forall|i: int, j: int| 0 <= i < j < leaves2.len() implies leaves_disjoint(
            #[trigger] leaves2[i],
            #[trigger] leaves2[j],
        ) by {
            if j < st.leaves.len() {
            } else {
                assert(leaves2[i] == st.leaves[i] && leaves2[j] == newleaf);
                assert(leaf_ok(st.leaves[i], st.bins.len() as int, width, height));
                assert(st.leaves[i].bin != newleaf.bin);
            }
        }
        let pkn = bins2[newleaf.bin as int].parts.len() - 1;
        assert(bins2[newleaf.bin as int] == nb);
        assert(nb.parts.len() == 1);
        assert(nb.parts.last() == (AtlasPart {
            rect_index: e.index,
            x: 0,
            y: 0,
            rotate: e.rect.rotated,
        }));
        assert(part_rect(nb.parts.last(), rects) == e.rect.rect);
        assert forall|i: int, k: int|
            0 <= i < leaves2.len() && 0 <= k < bins2[leaves2[i].bin as int].parts.len() && !(
            leaves2[i].bin == leaves2[li2].bin && k == bins2[leaves2[li2].bin
                as int].parts.len() - 1) implies leaf_part_sep(
            leaves2[i],
            #[trigger] bins2[leaves2[i].bin as int].parts[k],
            rects,
        ) by {
            assert(i < st.leaves.len());
            assert(leaves2[i] == st.leaves[i]);
            assert(st.leaves[i].bin < st.bins.len());
            assert(st.leaves[i].bin != newleaf.bin);
            assert(bins2[leaves2[i].bin as int] == st.bins[st.leaves[i].bin as int]);
            assert(leaf_part_sep(st.leaves[i], st.bins[st.leaves[i].bin as int].parts[k], rects));
        }
        lemma_subdivide_inv(bins2, leaves2, li2, w, h, rects, width, height, rotate);
        assert(st2.bins == bins2 && st2.leaves == subdivide_spec(leaves2, li2, w, h));
        assert forall|v: int|
            #[trigger] index_count(st2.bins, v) == index_count(st.bins, v) + (if e.index == v {
                1nat
            } else {
                0nat
            }) by {
            lemma_index_count_push_bin(st.bins, nb, v);
            lemma_index_count_singleton(
                AtlasPart { rect_index: e.index, x: 0, y: 0, rotate: e.rect.rotated },
                v,
            );
        }
    }
}

/// Folding the placement loop over any valid entry list keeps the
/// working-state invariant; the number of bins never exceeds the number of
/// entries processed, and each placement made references the item of the
/// entry that made it.
proof fn lemma_pack_fold_inv(
    entries: Seq<RectReference>,
    rects: Seq<Rect>,
    width: u32,
    height: u32,
    rotate: bool,
)
    requires
        pack_inputs_ok(rects, width, height, rotate),
        entries_ok(entries, rects, rotate),
        entries.len() <= rects.len(),
    ensures
        state_inv(pack_fold(entries, width, height), rects, width, height, rotate),
        pack_fold(entries, width, height).bins.len() <= entries.len(),
        entries.len() > 0 ==> pack_fold(entries, width, height).bins.len() >= 1,
        forall|v: int|
            #[trigger] index_count(pack_fold(entries, width, height).bins, v)
                == entry_index_count(entries, v),
    decreases entries.len(),
{
    if entries.len() == 0 {
    } else {
        let prefix = entries.drop_last();
        assert(entries_ok(prefix, rects, rotate));
        lemma_pack_fold_inv(prefix, rects, width, height, rotate);
        assert(entry_ok(entries.last(), rects, rotate));
        lemma_pack_step_inv(
            pack_fold(prefix, width, height),
            entries.last(),
            rects,
            width,
            height,
            rotate,
        );
    }
}

/// The binary-tree packer's result is a well-formed packing: every item is
/// placed exactly once, placements of one bin are pairwise disjoint, bin
/// sizes are tight bounding boxes, no bins are opened beyond one per item,
/// and nothing is rotated when rotation is disabled.
pub proof fn lemma_binary_tree_valid(rects: Seq<Rect>, width: u32, height: u32, rotate: bool)
    requires
        pack_inputs_ok(rects, width, height, rotate),
    ensures
        bins_valid(binary_tree_pack(rects, width, height, rotate), rects, rotate),
{
    let raw = oriented_list(rects, rotate);
    let entries = sort_spec(raw);
    let bins = binary_tree_pack(rects, width, height, rotate);
    lemma_oriented_list_ok(rects, rotate);
    lemma_sort_spec_ok(raw, rects, rotate);
    lemma_pack_fold_inv(entries, rects, width, height, rotate);
    assert forall|v: int|
        index_count(bins, v) == (if 0 <= v < rects.len() {
            1nat
        } else {
            0nat
        }) by {
        lemma_sort_spec_count(raw, v);
        lemma_oriented_list_count(rects, rotate, v);
    }
}

/// A generator that uses binary trees to generate an atlas.
///
/// This generator is useful for when decent results are needed but good
/// speed is required. This algorithm works well when rects are uniformly
/// sized, otherwise it will leave a lot of gaps.
pub struct BinaryTreeGenerator;

impl BinaryTreeGenerator {
    /// Replaces the leaf at `leaf_index` by the residual strips left over
    /// after an item of oriented size `width` by `height` is placed at the
    /// leaf's origin.
    fn subdivide(leaves: &mut Vec<Rectr>, leaf_index: usize, width: u32, height: u32)
        requires
            leaf_index < old(leaves)@.len(),
            width <= old(leaves)@[leaf_index as int].width,
            height <= old(leaves)@[leaf_index as int].height,
            old(leaves)@[leaf_index as int].x + old(leaves)@[leaf_index as int].width <= u32::MAX,
            old(leaves)@[leaf_index as int].y + old(leaves)@[leaf_index as int].height <= u32::MAX,
        ensures
            final(leaves)@ == subdivide_spec(old(leaves)@, leaf_index as int, width, height),
    {
        let leaf_count = leaves.len();
        proof {
            assert(leaf_index < leaf_count);
        }
        let leaf = leaves[leaf_index];

        // Sub-divide so that bottom has the larger portion.
        let leaf_left = Rectr::new(leaf.bin, leaf.x + width, leaf.y, leaf.width - width, height);
        let leaf_bottom = Rectr::new(
            leaf.bin,
            leaf.x,
            leaf.y + height,
            leaf.width,
            leaf.height - height,
        );

        if !leaf_left.empty() && !leaf_bottom.empty() {
            // Include both leaves.
            leaves.set(leaf_index, leaf_left);
            leaves.insert(leaf_index + 1, leaf_bottom);
        } else if !leaf_left.empty() {
            // Takes up the entire height, include only the left strip.
            leaves.set(leaf_index, leaf_left);
        } else if !leaf_bottom.empty() {
            // Takes up the entire width, include only the bottom strip.
            leaves.set(leaf_index, leaf_bottom);
        } else {
            // Takes up the entire area, include neither.
            leaves.remove(leaf_index);
        }
    }
}

/// Returns true iff an item of oriented size `width` by `height` fits into
/// the leaf's free region.
fn leaf_fits_exec(leaf: &Rectr, width: u32, height: u32) -> (r: bool)
    ensures
        r == leaf_fits(*leaf, width, height),
{
    width <= leaf.width && height <= leaf.height
}

impl AtlasGenerator for BinaryTreeGenerator {
    open spec fn bins_spec(&self, rects: Seq<Rect>, width: u32, height: u32, rotate: bool) -> Seq<
        BinModel,
    > {
        binary_tree_pack(rects, width, height, rotate)
    }

    proof fn bins_spec_valid(&self, rects: Seq<Rect>, width: u32, height: u32, rotate: bool) {
        lemma_binary_tree_valid(rects, width, height, rotate);
    }

    fn generate<T: AtlasRect>(&self, atlas: &mut Atlas<T>, widthr: u32, heightr: u32, rotate: bool) {
        let ghost rects = atlas.rects();
        let ghost entries = sort_spec(oriented_list(rects, rotate));
        proof {
            lemma_oriented_list_ok(rects, rotate);
            lemma_sort_spec_ok(oriented_list(rects, rotate), rects, rotate);
        }
        let atlas_list = sort_by_longest_width_increasing(atlas, rotate);
        let mut atlas_index: usize = 0;

        // All we really care about are leaves of trees. Don't use an actual
        // binary tree.
        let mut leaves: Vec<Rectr> = Vec::with_capacity(2);
        while atlas_index != atlas_list.len()
            invariant
                atlas_index <= entries.len(),
                atlas_list@ == entries,
                entries.len() == rects.len(),
                entries_ok(entries, rects, rotate),
                pack_inputs_ok(rects, widthr, heightr, rotate),
                atlas.items() == old(atlas).items(),
                rects == atlas.rects(),
                (PackState { bins: atlas.bins(), leaves: leaves@ }) == pack_fold(
                    entries.take(atlas_index as int),
                    widthr,
                    heightr,
                ),
            decreases entries.len() - atlas_index,
        {
            let ghost done = entries.take(atlas_index as int);
            let ghost st = pack_fold(done, widthr, heightr);
            let e = atlas_list[atlas_index];
            let rect_index = e.index;
            let dims = e.rect.rect;
            let rotated = e.rect.rotated;
            proof {
                assert(st.bins == atlas.bins());
                assert(st.leaves == leaves@);
                assert(entries_ok(done, rects, rotate));
                lemma_pack_fold_inv(done, rects, widthr, heightr, rotate);
                assert(entry_ok(e, rects, rotate));
                assert(rotate_rect(rects[e.index as int], rotated) == dims);
                assert(!rect_empty(rects[e.index as int]));
                assert(item_fits(rects[e.index as int], widthr, heightr, rotate));
                assert(entries.take(atlas_index + 1).drop_last() =~= done);
                assert(entries.take(atlas_index + 1).last() == e);
            }
            let mut leaf_index: usize = 0;
            while leaf_index < leaves.len() && !leaf_fits_exec(&leaves[leaf_index], dims.width, dims.height)
                invariant
                    leaf_index <= leaves@.len(),
                    forall|k: int|
                        0 <= k < leaf_index ==> !leaf_fits(
                            #[trigger] leaves@[k],
                            dims.width,
                            dims.height,
                        ),
                decreases leaves@.len() - leaf_index,
            {
                leaf_index = leaf_index + 1;
            }
            proof {
                lemma_find_leaf(leaves@, dims.width, dims.height);
            }
            if leaf_index < leaves.len() {
                proof {
                    assert(leaf_fits(st.leaves[leaf_index as int], dims.width, dims.height));
                    assert(find_leaf(st.leaves, dims.width, dims.height) == leaf_index as int);
                    assert(leaf_ok(
                        st.leaves[leaf_index as int],
                        st.bins.len() as int,
                        widthr,
                        heightr,
                    ));
                }
                let leaf = leaves[leaf_index];
                BinaryTreeGenerator::subdivide(&mut leaves, leaf_index, dims.width, dims.height);
                atlas.bin_add_rect(leaf.bin, rect_index, leaf.x, leaf.y, rotated);
                proof {
                    lemma_pack_step_inv(st, e, rects, widthr, heightr, rotate);
                    assert((PackState { bins: atlas.bins(), leaves: leaves@ }) =~= pack_step(
                        st,
                        e,
                        widthr,
                        heightr,
                    ));
                }
            } else {
                proof {
                    assert(find_leaf(st.leaves, dims.width, dims.height) == -1);
                }
                let bin = atlas.bin_list().len();
                atlas.bin_add_new(rect_index, rotated);
                let leaf_index2 = leaves.len();
                leaves.push(Rectr::new(bin, 0, 0, widthr, heightr));
                BinaryTreeGenerator::subdivide(&mut leaves, leaf_index2, dims.width, dims.height);
                proof {
                    lemma_pack_step_inv(st, e, rects, widthr, heightr, rotate);
                    assert((PackState { bins: atlas.bins(), leaves: leaves@ }) =~= pack_step(
                        st,
                        e,
                        widthr,
                        heightr,
                    ));
                }
            }
            atlas_index = atlas_index + 1;
        }
        proof {
            assert(entries.take(entries.len() as int) =~= entries);
        }
    }
}

/// Returns true iff `a` sorts strictly before `b` in the ordering pass.
fn sorts_before_exec(a: &RotatableRect, b: &RotatableRect) -> (r: bool)
    ensures
        r == sorts_before(*a, *b),
{
    a.rect.height > b.rect.height || (a.rect.height == b.rect.height && a.rect.width > b.rect.width)
}

/// Builds the sorted work list of the ordering pass: one entry per item,
/// carrying the orientation fixed by `dimensions_longest_rotated`, sorted
/// by descending height then descending width, stably.
fn sort_by_longest_width_increasing<T: AtlasRect>(atlas: &Atlas<T>, rotate: bool) -> (r: Vec<
    RectReference,
>)
    ensures
        r@ == sort_spec(oriented_list(atlas.rects(), rotate)),
{
    let rect_list = atlas.rect_list();
    let n = rect_list.len();
    let mut entries: Vec<RectReference> = Vec::with_capacity(n);
    let mut index: usize = 0;
    while index < n
        invariant
            index <= n,
            n == atlas.items().len(),
            rect_list@ == atlas.items(),
            entries@ == oriented_list(atlas.rects().take(index as int), rotate),
        decreases n - index,
    {
        let rr = rect_list[index].dimensions_longest_rotated(rotate);
        entries.push(RectReference { index, rect: rr });
        proof {
            let rects = atlas.rects();
            assert(rects.take(index + 1).drop_last() =~= rects.take(index as int));
            assert(rects.take(index + 1).last() == rects[index as int]);
        }
        index = index + 1;
    }
    proof {
        assert(atlas.rects().take(n as int) =~= atlas.rects());
    }
    let mut sorted: Vec<RectReference> = Vec::with_capacity(n);
    let mut i: usize = 0;
    while i < entries.len()
        invariant
            i <= entries@.len(),
            entries@ == oriented_list(atlas.rects(), rotate),
            sorted@ == sort_spec(entries@.take(i as int)),
        decreases entries@.len() - i,
    {
        let e = entries[i];
        let mut j: usize = sorted.len();
        while j > 0 && sorts_before_exec(&e.rect, &sorted[j - 1].rect)
            invariant
                j <= sorted@.len(),
                sorted@ == sort_spec(entries@.take(i as int)),
                e == entries@[i as int],
                i < entries@.len(),
                forall|k: int|
                    j <= k < sorted@.len() ==> sorts_before(e.rect, (#[trigger] sorted@[k]).rect),
            decreases j,
        {
            j = j - 1;
        }
        proof {
            lemma_insert_sorted_at(sorted@, e, j as int);
            assert(entries@.take(i + 1).drop_last() =~= entries@.take(i as int));
            assert(entries@.take(i + 1).last() == entries@[i as int]);
        }
        sorted.insert(j, e);
        i = i + 1;
    }
    proof {
        assert(entries@.take(entries@.len() as int) =~= entries@);
    }
    sorted
}

} // verus!
