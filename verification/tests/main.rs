use texture_atlas::gen::PassthroughGenerator;
use texture_atlas::util::Rect;
use texture_atlas::Atlas;

#[test]
fn passthrough_generator() {
    let object_list = [Rect::new(32, 32), Rect::new(64, 64), Rect::new(16, 16)];

    let atlas = Atlas::build(&object_list, 64, 64, false).generate(&PassthroughGenerator);
    assert_eq!(atlas.bin_list().len(), object_list.len());
}
