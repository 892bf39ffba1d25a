use atlas_cache::atlas::{Atlas, Backend, BindGroup, Device, Layout};
use atlas_cache::entry::{Allocation, Entry, Fragment};
use atlas_cache::geometry::Size;

fn atlas_with(max_layers: u32) -> Atlas {
    Atlas::new(&Device { max_layers }, Backend::Vulkan, Layout { id: 7 })
}

#[test]
fn new_atlas_has_one_layer() {
    let atlas = atlas_with(256);
    assert_eq!(atlas.layer_count(), 1);
    assert_eq!(*atlas.bind_group(), BindGroup { layout: Layout { id: 7 }, layers: 1 });
    assert_eq!(atlas.bind_group_layout(), Layout { id: 7 });
}

#[test]
fn new_atlas_on_gl_has_two_layers() {
    let atlas = Atlas::new(&Device { max_layers: 256 }, Backend::Gl, Layout { id: 1 });
    assert_eq!(atlas.layer_count(), 2);
    assert_eq!(atlas.bind_group().layers, 2);
}

#[test]
fn first_allocation_sits_in_the_corner() {
    let mut atlas = atlas_with(256);
    let entry = atlas.allocate(Size::new(4, 4));
    assert_eq!(
        entry,
        Some(Entry::Contiguous(Allocation { x: 0, y: 0, width: 4, height: 4, layer: 0 }))
    );
    assert_eq!(atlas.layer_count(), 1);
}

#[test]
fn allocations_do_not_overlap() {
    let mut atlas = atlas_with(256);
    let mut taken: Vec<Allocation> = Vec::new();
    for k in 0..40u32 {
        let size = Size::new(100 + 37 * (k % 5), 60 + 53 * (k % 7));
        match atlas.allocate(size) {
            Some(Entry::Contiguous(allocation)) => {
                assert_eq!(allocation.size(), size);
                assert!(allocation.x + allocation.width <= 2048);
                assert!(allocation.y + allocation.height <= 2048);
                assert!(allocation.layer() < atlas.layer_count());
                for other in &taken {
                    let apart = other.layer != allocation.layer
                        || other.x + other.width <= allocation.x
                        || allocation.x + allocation.width <= other.x
                        || other.y + other.height <= allocation.y
                        || allocation.y + allocation.height <= other.y;
                    assert!(apart);
                }
                taken.push(allocation);
            }
            _ => panic!("a small image must get one rectangle"),
        }
    }
}

#[test]
fn second_allocation_sits_beside_the_first() {
    let mut atlas = atlas_with(256);
    let _ = atlas.allocate(Size::new(1000, 10));
    let entry = atlas.allocate(Size::new(1000, 10));
    assert_eq!(
        entry,
        Some(Entry::Contiguous(Allocation { x: 1000, y: 0, width: 1000, height: 10, layer: 0 }))
    );
    let entry = atlas.allocate(Size::new(1000, 10));
    assert_eq!(
        entry,
        Some(Entry::Contiguous(Allocation { x: 0, y: 10, width: 1000, height: 10, layer: 0 }))
    );
}

#[test]
fn empty_size_is_not_placed() {
    let mut atlas = atlas_with(256);
    assert_eq!(atlas.allocate(Size::new(0, 10)), None);
    assert_eq!(atlas.allocate(Size::new(10, 0)), None);
    assert_eq!(atlas.allocate(Size::new(0, 0)), None);
    assert_eq!(atlas.layer_count(), 1);
}

#[test]
fn atlas_grows_when_a_layer_is_full() {
    let mut atlas = atlas_with(3);
    let first = atlas.allocate(Size::new(2048, 2048));
    assert_eq!(
        first,
        Some(Entry::Contiguous(Allocation { x: 0, y: 0, width: 2048, height: 2048, layer: 0 }))
    );
    let second = atlas.allocate(Size::new(2048, 2048));
    assert_eq!(
        second,
        Some(Entry::Contiguous(Allocation { x: 0, y: 0, width: 2048, height: 2048, layer: 1 }))
    );
    assert_eq!(atlas.layer_count(), 2);
    assert_eq!(atlas.bind_group().layers, 2);
}

#[test]
fn atlas_refuses_when_it_cannot_grow() {
    let mut atlas = atlas_with(2);
    assert!(atlas.allocate(Size::new(2048, 2048)).is_some());
    assert!(atlas.allocate(Size::new(2048, 2048)).is_some());
    assert_eq!(atlas.allocate(Size::new(1, 1)), None);
    assert_eq!(atlas.layer_count(), 2);
}

#[test]
fn atlas_with_no_growth_still_uses_its_first_layer() {
    let mut atlas = atlas_with(0);
    assert!(atlas.allocate(Size::new(2048, 1024)).is_some());
    assert!(atlas.allocate(Size::new(2048, 1024)).is_some());
    assert_eq!(atlas.allocate(Size::new(1, 1)), None);
    assert_eq!(atlas.layer_count(), 1);
}

#[test]
fn freed_room_is_used_again() {
    let mut atlas = atlas_with(1);
    let whole = atlas.allocate(Size::new(2048, 2048)).unwrap();
    assert_eq!(atlas.allocate(Size::new(8, 8)), None);
    atlas.free(&whole);
    assert_eq!(
        atlas.allocate(Size::new(8, 8)),
        Some(Entry::Contiguous(Allocation { x: 0, y: 0, width: 8, height: 8, layer: 0 }))
    );
}

#[test]
fn freeing_what_is_not_there_changes_nothing() {
    let mut atlas = atlas_with(1);
    let _ = atlas.allocate(Size::new(2048, 2048)).unwrap();
    let stranger = Entry::Contiguous(Allocation { x: 0, y: 0, width: 5, height: 5, layer: 0 });
    atlas.free(&stranger);
    assert_eq!(atlas.allocate(Size::new(8, 8)), None);
}

#[test]
fn wide_image_is_cut_into_pieces() {
    let mut atlas = atlas_with(256);
    let entry = atlas.allocate(Size::new(5000, 100)).unwrap();
    assert_eq!(
        entry,
        Entry::Fragmented {
            size: Size::new(5000, 100),
            fragments: vec![
                Fragment {
                    position: (0, 0),
                    allocation: Allocation { x: 0, y: 0, width: 2048, height: 100, layer: 0 },
                },
                Fragment {
                    position: (2048, 0),
                    allocation: Allocation { x: 0, y: 0, width: 2048, height: 100, layer: 1 },
                },
                Fragment {
                    position: (4096, 0),
                    allocation: Allocation { x: 0, y: 0, width: 904, height: 100, layer: 2 },
                },
            ],
        }
    );
    assert_eq!(atlas.layer_count(), 3);
}

#[test]
fn large_image_is_cut_row_by_row() {
    let mut atlas = atlas_with(256);
    let entry = atlas.allocate(Size::new(2049, 4097)).unwrap();
    match entry {
        Entry::Fragmented { size, fragments } => {
            assert_eq!(size, Size::new(2049, 4097));
            assert_eq!(fragments.len(), 6);
            let positions: Vec<(u32, u32)> = fragments.iter().map(|f| f.position).collect();
            assert_eq!(
                positions,
                vec![(0, 0), (2048, 0), (0, 2048), (2048, 2048), (0, 4096), (2048, 4096)]
            );
            let sizes: Vec<(u32, u32)> =
                fragments.iter().map(|f| (f.allocation.width, f.allocation.height)).collect();
            assert_eq!(
                sizes,
                vec![(2048, 2048), (1, 2048), (2048, 2048), (1, 2048), (2048, 1), (1, 1)]
            );
            for (k, fragment) in fragments.iter().enumerate() {
                assert_eq!(fragment.allocation.position(), (0, 0));
                assert_eq!(fragment.allocation.layer(), k);
            }
        }
        Entry::Contiguous(_) => panic!("an image larger than a layer must be cut"),
    }
}

#[test]
fn pieces_need_a_layer_each() {
    let mut atlas = atlas_with(2);
    assert_eq!(atlas.allocate(Size::new(5000, 100)), None);
    assert_eq!(atlas.layer_count(), 1);
    assert!(atlas.allocate(Size::new(4096, 100)).is_some());
    assert_eq!(atlas.layer_count(), 2);
}

#[test]
fn pieces_pass_over_layers_in_use() {
    let mut atlas = atlas_with(3);
    let small = atlas.allocate(Size::new(4, 4)).unwrap();
    assert_eq!(atlas.allocate(Size::new(6000, 4)), None);
    let entry = atlas.allocate(Size::new(4096, 4)).unwrap();
    match &entry {
        Entry::Fragmented { fragments, .. } => {
            assert_eq!(fragments[0].allocation.layer, 1);
            assert_eq!(fragments[1].allocation.layer, 2);
        }
        Entry::Contiguous(_) => panic!("an image larger than a layer must be cut"),
    }
    atlas.free(&entry);
    atlas.free(&small);
    let again = atlas.allocate(Size::new(6000, 4)).unwrap();
    match again {
        Entry::Fragmented { fragments, .. } => {
            assert_eq!(fragments.len(), 3);
            assert_eq!(fragments[0].allocation.layer, 0);
            assert_eq!(fragments[2].allocation.layer, 2);
        }
        Entry::Contiguous(_) => panic!("an image larger than a layer must be cut"),
    }
    assert_eq!(atlas.layer_count(), 3);
}

#[test]
fn huge_image_is_refused() {
    let mut atlas = atlas_with(u32::MAX);
    assert_eq!(atlas.allocate(Size::new(u32::MAX, u32::MAX)), None);
    assert_eq!(atlas.layer_count(), 1);
}
