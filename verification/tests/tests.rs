use texture_atlas::gen::{BinaryTreeGenerator, PassthroughGenerator};
use texture_atlas::util::Rect;
use texture_atlas::{Atlas, AtlasBin, AtlasGenerator, AtlasRect};

fn has_overlaps(atlas: &Atlas<Rect>, bin: &AtlasBin) -> bool {
    let parts = bin.part_list();
    for i in 0..parts.len() {
        for j in (i + 1)..parts.len() {
            let a = &parts[i];
            let b = &parts[j];
            let da = atlas.rect_list()[a.rect_index].dimensions_rotated(a.rotate);
            let db = atlas.rect_list()[b.rect_index].dimensions_rotated(b.rotate);
            let separated = a.x + da.width <= b.x
                || b.x + db.width <= a.x
                || a.y + da.height <= b.y
                || b.y + db.height <= a.y;
            if !separated {
                return true;
            }
        }
    }
    false
}

fn smoke_atlas(atlas: &Atlas<Rect>) {
    // If the generator creates more bins than rects, something is wrong.
    assert!(atlas.bin_list().len() <= atlas.rect_list().len());

    // Make sure no bins repeat rects and none overlap.
    let mut counter = atlas.rect_list().len();
    let mut checker = vec![false; atlas.rect_list().len()];
    for bin in atlas.bin_list() {
        for part in bin.part_list() {
            let rect_index = part.rect_index;
            if checker[rect_index] {
                panic!("Bin contains rect already in another bin");
            }
            checker[rect_index] = true;
            counter -= 1;
        }
        if has_overlaps(atlas, bin) {
            panic!("Bin has overlapping rect");
        }
    }
    if counter != 0 {
        panic!("Atlas does not include all rects");
    }
}

fn smoke<T: AtlasGenerator>(generator: &T) {
    let atlas_width: u32 = 256;
    let atlas_height: u32 = 128;

    let rect_large = Rect::new(192, 96);

    // Empty rect list should generate no bins.
    let list_empty: Vec<Rect> = Vec::new();
    let atlas = Atlas::build(&list_empty, atlas_width, atlas_height, false).generate(generator);
    assert_eq!(atlas.bin_list().len(), 0);

    // Single item rect list should always generate one bin.
    let list_single = vec![rect_large];
    let atlas = Atlas::build(&list_single, atlas_width, atlas_height, false).generate(generator);
    assert_eq!(atlas.bin_list().len(), 1);

    // Having two large items means you cannot fit everything, so two bins.
    let list_large = vec![rect_large, rect_large];
    let atlas = Atlas::build(&list_large, atlas_width, atlas_height, false).generate(generator);
    assert_eq!(atlas.bin_list().len(), 2);
    smoke_atlas(&atlas);
}

#[test]
fn test_passthrough() {
    smoke(&PassthroughGenerator);
}

#[test]
fn test_binary_tree() {
    smoke(&BinaryTreeGenerator);
}
