use texture_atlas::util::Rect;
use texture_atlas::Atlas;

#[test]
fn image_single() {
    let rect_list = vec![Rect::new(256, 128)];
    let mut atlas = Atlas::new(&rect_list);
    atlas.bin_add_new(0, false);

    assert_eq!(atlas.bin_list().len(), 1);
    let bin = &atlas.bin_list()[0];
    assert_eq!(bin.dimensions().width, 256);
    assert_eq!(bin.dimensions().height, 128);
    assert_eq!(bin.part_list().len(), 1);
    assert_eq!(bin.part_list()[0].rect_index, 0);
    assert_eq!(bin.part_list()[0].x, 0);
    assert_eq!(bin.part_list()[0].y, 0);
    assert_eq!(bin.part_list()[0].rotate, false);
}

#[test]
fn image_spread() {
    // 5 images. 3 images in 1 bin, 2 in another.
    let rect_list = vec![
        Rect::new(128, 128),
        Rect::new(128, 128),
        Rect::new(128, 128),
        Rect::new(128, 128),
        Rect::new(128, 128),
    ];
    let atlas = Atlas::build(&rect_list, 384, 128, false)
        .generate(&texture_atlas::gen::BinaryTreeGenerator);
    assert_eq!(atlas.bin_list().len(), 2);
    let first = &atlas.bin_list()[0];
    let second = &atlas.bin_list()[1];
    assert_eq!(first.part_list().len(), 3);
    assert_eq!(second.part_list().len(), 2);
}
