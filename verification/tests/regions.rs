use atlas_cache::cache::{AtlasRegion, Cache};
use atlas_cache::entry::{Allocation, Entry, Fragment, SIZE};
use atlas_cache::geometry::Size;

#[test]
fn contiguous_region_has_the_corners_of_the_rectangle() {
    let entry = Entry::Contiguous(Allocation { x: 512, y: 1024, width: 256, height: 128, layer: 3 });
    let region = Cache::region_from_entry(&entry);
    assert_eq!(
        region,
        AtlasRegion { uv_min: (512, 1024), uv_max: (768, 1152), extent: 2048, layer: 3 }
    );
}

#[test]
fn region_of_a_whole_layer_spans_the_unit_square() {
    let entry = Entry::Contiguous(Allocation { x: 0, y: 0, width: SIZE, height: SIZE, layer: 0 });
    let region = Cache::region_from_entry(&entry);
    assert_eq!(region.uv_min, (0, 0));
    assert_eq!(region.uv_max, (u64::from(region.extent), u64::from(region.extent)));
    assert_eq!(region.layer, 0);
}

#[test]
fn region_of_an_empty_rectangle_is_a_point() {
    let entry = Entry::Contiguous(Allocation { x: 7, y: 9, width: 0, height: 0, layer: 1 });
    let region = Cache::region_from_entry(&entry);
    assert_eq!(region.uv_min, (7, 9));
    assert_eq!(region.uv_max, (7, 9));
    assert_eq!(region.extent, 2048);
    assert_eq!(region.layer, 1);
}

#[test]
fn region_does_not_wrap_at_the_largest_coordinates() {
    let entry = Entry::Contiguous(Allocation {
        x: u32::MAX,
        y: u32::MAX,
        width: u32::MAX,
        height: 1,
        layer: u32::MAX,
    });
    let region = Cache::region_from_entry(&entry);
    assert_eq!(region.uv_min, (4294967295, 4294967295));
    assert_eq!(region.uv_max, (8589934590, 4294967296));
    assert_eq!(region.layer, u32::MAX);
}

#[test]
fn fragmented_entry_without_fragments_resolves_to_nothing() {
    let entry = Entry::Fragmented { size: Size::new(4096, 4096), fragments: Vec::new() };
    let region = Cache::region_from_entry(&entry);
    assert_eq!(region.uv_min, (0, 0));
    assert_eq!(region.uv_max, (0, 0));
    assert_eq!(region.layer, 0);
}

#[test]
fn fragmented_entry_is_sampled_through_its_first_fragment() {
    let first = Fragment {
        position: (100, 200),
        allocation: Allocation { x: 0, y: 0, width: 2048, height: 50, layer: 5 },
    };
    let second = Fragment {
        position: (2048, 0),
        allocation: Allocation { x: 0, y: 0, width: 952, height: 50, layer: 6 },
    };
    let entry = Entry::Fragmented { size: Size::new(3000, 50), fragments: vec![first, second] };
    let region = Cache::region_from_entry(&entry);
    assert_eq!(
        region,
        AtlasRegion { uv_min: (100, 200), uv_max: (3100, 250), extent: 2048, layer: 5 }
    );
}

#[test]
fn entry_reports_the_size_it_was_made_for() {
    let contiguous = Entry::Contiguous(Allocation { x: 1, y: 2, width: 30, height: 40, layer: 0 });
    assert_eq!(contiguous.size(), Size::new(30, 40));
    let fragmented = Entry::Fragmented { size: Size::new(5000, 10), fragments: Vec::new() };
    assert_eq!(fragmented.size(), Size::new(5000, 10));
}

#[test]
fn allocation_accessors_return_its_fields() {
    let allocation = Allocation { x: 11, y: 22, width: 33, height: 44, layer: 55 };
    assert_eq!(allocation.position(), (11, 22));
    assert_eq!(allocation.size(), Size::new(33, 44));
    assert_eq!(allocation.layer(), 55usize);
}
