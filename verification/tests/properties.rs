use texture_atlas::gen::{BinaryTreeGenerator, PassthroughGenerator};
use texture_atlas::util::{Rect, RotatableRect};
use texture_atlas::{Atlas, AtlasRect};

#[test]
fn rect_operations() {
    let r = Rect::new(3, 4);
    assert_eq!(r.width(), 3);
    assert_eq!(r.height(), 4);
    assert_eq!(r.area(), 12);
    assert!(!r.empty());

    let zero = Rect::new(0, 5);
    assert!(zero.empty());
    assert_eq!(zero.area(), 0);

    let d = r.dimensions();
    assert_eq!((d.width, d.height), (3, 4));
    let swapped = r.dimensions_rotated(true);
    assert_eq!((swapped.width, swapped.height), (4, 3));
    let unswapped = r.dimensions_rotated(false);
    assert_eq!((unswapped.width, unswapped.height), (3, 4));

    let large = Rect::new(u32::MAX, u32::MAX);
    assert_eq!(large.area(), u32::MAX as u64 * u32::MAX as u64);
}

#[test]
fn longest_side_orientation() {
    // Taller than wide: rotated so the longer side becomes the width.
    let tall = Rect::new(64, 128);
    let oriented = tall.dimensions_longest();
    assert_eq!((oriented.rect.width, oriented.rect.height), (128, 64));
    assert!(oriented.rotated);

    // Wider than tall: kept as is.
    let wide = Rect::new(128, 64);
    let oriented = wide.dimensions_longest_rotated(true);
    assert_eq!((oriented.rect.width, oriented.rect.height), (128, 64));
    assert!(!oriented.rotated);

    // Ties keep the original orientation unrotated.
    let square = Rect::new(50, 50);
    let oriented = square.dimensions_longest_rotated(true);
    assert!(!oriented.rotated);

    // With rotation disabled nothing is ever swapped.
    let oriented = tall.dimensions_longest_rotated(false);
    assert_eq!((oriented.rect.width, oriented.rect.height), (64, 128));
    assert!(!oriented.rotated);

    let rr = RotatableRect::new(7, 9, true);
    assert_eq!(rr.rect.width, 7);
    assert_eq!(rr.rect.height, 9);
    assert!(rr.rotated);
    assert_eq!(rr.width(), 7);
    assert_eq!(rr.height(), 9);
}

#[test]
fn empty_item_list_gives_no_bins() {
    let list: Vec<Rect> = Vec::new();
    let atlas = Atlas::build(&list, 256, 128, false).generate(&BinaryTreeGenerator);
    assert_eq!(atlas.bin_list().len(), 0);
    let atlas = Atlas::build(&list, 256, 128, false).generate(&PassthroughGenerator);
    assert_eq!(atlas.bin_list().len(), 0);
}

#[test]
fn single_item_single_bin() {
    let list = vec![Rect::new(192, 96)];
    let atlas = Atlas::build(&list, 256, 128, false).generate(&BinaryTreeGenerator);
    assert_eq!(atlas.bin_list().len(), 1);
    let bin = &atlas.bin_list()[0];
    assert_eq!(bin.part_list().len(), 1);
    let part = &bin.part_list()[0];
    assert_eq!(part.rect_index, 0);
    assert_eq!((part.x, part.y), (0, 0));
    assert!(!part.rotate);
    assert_eq!((bin.dimensions().width, bin.dimensions().height), (192, 96));
}

#[test]
fn two_large_items_two_bins() {
    let list = vec![Rect::new(192, 96), Rect::new(192, 96)];
    let atlas = Atlas::build(&list, 256, 128, false).generate(&BinaryTreeGenerator);
    assert_eq!(atlas.bin_list().len(), 2);
    for bin in atlas.bin_list() {
        assert_eq!(bin.part_list().len(), 1);
        assert_eq!((bin.dimensions().width, bin.dimensions().height), (192, 96));
    }
    let first = &atlas.bin_list()[0].part_list()[0];
    let second = &atlas.bin_list()[1].part_list()[0];
    assert_ne!(first.rect_index, second.rect_index);
}

#[test]
fn tall_item_placed_rotated() {
    // An item taller than wide, a maximum bin that only admits it sideways,
    // and rotation allowed: the item is placed rotated in a single bin.
    let list = vec![Rect::new(64, 128)];
    let atlas = Atlas::build(&list, 128, 64, true).generate(&BinaryTreeGenerator);
    assert_eq!(atlas.bin_list().len(), 1);
    let bin = &atlas.bin_list()[0];
    assert_eq!(bin.part_list().len(), 1);
    let part = &bin.part_list()[0];
    assert!(part.rotate);
    assert_eq!((part.x, part.y), (0, 0));
    assert_eq!((bin.dimensions().width, bin.dimensions().height), (128, 64));
}

#[test]
fn passthrough_one_bin_per_item() {
    let list = vec![Rect::new(32, 32), Rect::new(64, 64), Rect::new(16, 16)];
    let atlas = Atlas::build(&list, 64, 64, false).generate(&PassthroughGenerator);
    assert_eq!(atlas.bin_list().len(), 3);
    for (index, bin) in atlas.bin_list().iter().enumerate() {
        assert_eq!(bin.part_list().len(), 1);
        let part = &bin.part_list()[0];
        assert_eq!(part.rect_index, index);
        assert_eq!((part.x, part.y), (0, 0));
        assert!(!part.rotate);
        assert_eq!(bin.dimensions().width, list[index].width);
        assert_eq!(bin.dimensions().height, list[index].height);
    }
}

#[test]
fn leftover_space_is_reused() {
    // Four quarters fill one bin exactly, first-fit reusing both residual
    // strips of the first placement.
    let list = vec![
        Rect::new(64, 64),
        Rect::new(64, 64),
        Rect::new(64, 64),
        Rect::new(64, 64),
    ];
    let atlas = Atlas::build(&list, 128, 128, false).generate(&BinaryTreeGenerator);
    assert_eq!(atlas.bin_list().len(), 1);
    let bin = &atlas.bin_list()[0];
    assert_eq!(bin.part_list().len(), 4);
    let positions: Vec<(u32, u32)> = bin.part_list().iter().map(|p| (p.x, p.y)).collect();
    assert_eq!(positions, vec![(0, 0), (64, 0), (0, 64), (64, 64)]);
    assert_eq!((bin.dimensions().width, bin.dimensions().height), (128, 128));
}

#[test]
fn tallest_items_first() {
    // The ordering pass packs the taller item first even though it comes
    // second in the input; ties of the reported bounds follow placement.
    let list = vec![Rect::new(16, 16), Rect::new(64, 64)];
    let atlas = Atlas::build(&list, 128, 64, false).generate(&BinaryTreeGenerator);
    assert_eq!(atlas.bin_list().len(), 1);
    let bin = &atlas.bin_list()[0];
    assert_eq!(bin.part_list().len(), 2);
    assert_eq!(bin.part_list()[0].rect_index, 1);
    assert_eq!((bin.part_list()[0].x, bin.part_list()[0].y), (0, 0));
    assert_eq!(bin.part_list()[1].rect_index, 0);
    assert_eq!((bin.part_list()[1].x, bin.part_list()[1].y), (64, 0));
    assert_eq!((bin.dimensions().width, bin.dimensions().height), (80, 64));
}

#[test]
fn every_item_placed_exactly_once() {
    let list = vec![
        Rect::new(40, 30),
        Rect::new(100, 20),
        Rect::new(10, 10),
        Rect::new(60, 60),
        Rect::new(25, 80),
        Rect::new(128, 128),
    ];
    let atlas = Atlas::build(&list, 128, 128, true).generate(&BinaryTreeGenerator);
    let mut seen = vec![0usize; list.len()];
    for bin in atlas.bin_list() {
        for part in bin.part_list() {
            seen[part.rect_index] += 1;
        }
    }
    assert_eq!(seen, vec![1, 1, 1, 1, 1, 1]);
    assert!(atlas.bin_list().len() <= list.len());
    assert!(!atlas.bin_list().is_empty());
}

#[test]
fn placements_disjoint_and_bounds_tight() {
    let list = vec![
        Rect::new(40, 30),
        Rect::new(100, 20),
        Rect::new(10, 10),
        Rect::new(60, 60),
        Rect::new(25, 80),
    ];
    let atlas = Atlas::build(&list, 128, 128, true).generate(&BinaryTreeGenerator);
    for bin in atlas.bin_list() {
        let parts = bin.part_list();
        let mut max_w = 0;
        let mut max_h = 0;
        for i in 0..parts.len() {
            let a = &parts[i];
            let da = atlas.rect_list()[a.rect_index].dimensions_rotated(a.rotate);
            max_w = max_w.max(a.x + da.width);
            max_h = max_h.max(a.y + da.height);
            for j in (i + 1)..parts.len() {
                let b = &parts[j];
                let db = atlas.rect_list()[b.rect_index].dimensions_rotated(b.rotate);
                let separated = a.x + da.width <= b.x
                    || b.x + db.width <= a.x
                    || a.y + da.height <= b.y
                    || b.y + db.height <= a.y;
                assert!(separated, "two placements overlap");
            }
        }
        // The reported size is exactly the component-wise maximum of the
        // placements' far corners.
        assert_eq!(bin.dimensions().width, max_w);
        assert_eq!(bin.dimensions().height, max_h);
    }
}

#[test]
fn packing_is_deterministic() {
    let list = vec![
        Rect::new(40, 30),
        Rect::new(100, 20),
        Rect::new(10, 10),
        Rect::new(60, 60),
        Rect::new(25, 80),
        Rect::new(25, 80),
    ];
    let first = Atlas::build(&list, 128, 128, true).generate(&BinaryTreeGenerator);
    let second = Atlas::build(&list, 128, 128, true).generate(&BinaryTreeGenerator);
    assert_eq!(first.bin_list().len(), second.bin_list().len());
    for (a, b) in first.bin_list().iter().zip(second.bin_list().iter()) {
        assert_eq!(a.dimensions(), b.dimensions());
        assert_eq!(a.part_list(), b.part_list());
    }
}

#[test]
fn no_rotation_when_disabled() {
    let list = vec![
        Rect::new(32, 100),
        Rect::new(100, 32),
        Rect::new(20, 90),
        Rect::new(90, 20),
    ];
    let atlas = Atlas::build(&list, 256, 128, false).generate(&BinaryTreeGenerator);
    for bin in atlas.bin_list() {
        for part in bin.part_list() {
            assert!(!part.rotate);
        }
    }
}

#[test]
fn rect_list_tracks_area() {
    let mut list = texture_atlas::AtlasRectList::new();
    assert_eq!(list.len(), 0);
    assert_eq!(list.total_area(), 0);
    list.add(Rect::new(32, 32));
    list.add(Rect::new(64, 64));
    assert_eq!(list.len(), 2);
    assert_eq!(list.total_area(), 32 * 32 + 64 * 64);
    assert_eq!(list.lower_bound(Rect::new(64, 64)), 2);

    let atlas = list.build(64, 64, false).generate(&PassthroughGenerator);
    assert_eq!(atlas.bin_list().len(), 2);
}

#[test]
fn rect_list_with_capacity_starts_empty() {
    let list: texture_atlas::AtlasRectList<Rect> = texture_atlas::AtlasRectList::with_capacity(8);
    assert_eq!(list.len(), 0);
    assert_eq!(list.total_area(), 0);
}

#[test]
fn bin_grows_with_added_rects() {
    let list = vec![Rect::new(100, 40), Rect::new(30, 60)];
    let mut atlas = Atlas::new(&list);
    let bin_index = atlas.bin_add_new(0, false);
    assert_eq!(bin_index, 0);
    atlas.bin_add_rect(0, 1, 100, 0, false);
    let bin = &atlas.bin_list()[0];
    assert_eq!(bin.part_list().len(), 2);
    // The bounds grow to the component-wise maximum of the far corners.
    assert_eq!(bin.dimensions().width, 130);
    assert_eq!(bin.dimensions().height, 60);
}

#[test]
fn bins_can_be_packed_again() {
    // Bins implement the item capability themselves, so the bins of one
    // pass can be packed as the items of another.
    let list = vec![Rect::new(64, 64), Rect::new(64, 64), Rect::new(64, 64)];
    let first = Atlas::build(&list, 64, 64, false).generate(&BinaryTreeGenerator);
    assert_eq!(first.bin_list().len(), 3);
    assert_eq!(first.bin_list()[0].width(), 64);
    assert_eq!(first.bin_list()[0].height(), 64);

    let second = Atlas::build(first.bin_list(), 128, 128, false).generate(&BinaryTreeGenerator);
    assert_eq!(second.bin_list().len(), 1);
    assert_eq!(second.bin_list()[0].part_list().len(), 3);
}
