use atlas_cache::atlas::{Atlas, Backend, Device, Layout};
use atlas_cache::encoder::{Encoder, Source, Transfer};
use atlas_cache::entry::{Allocation, Entry, Fragment};
use atlas_cache::geometry::Size;
use atlas_cache::raster;
use atlas_cache::raster::Memory;
use atlas_cache::table::{Key as TableKey, Table};
use atlas_cache::vector;
use atlas_cache::vector::{Color, Key, Svg};

#[test]
fn table_finds_what_was_inserted() {
    let mut table: Table<u64, u32> = Table::new();
    assert_eq!(table.get(&1), None);
    assert!(!table.contains(&1));
    table.insert(1, 10, false);
    table.insert(2, 20, false);
    assert_eq!(table.get(&1), Some(&10));
    assert_eq!(table.get(&2), Some(&20));
    assert!(table.contains(&2));
    assert_eq!(table.get(&3), None);
}

#[test]
fn table_insert_replaces() {
    let mut table: Table<u64, u32> = Table::new();
    table.insert(1, 10, true);
    table.insert(1, 11, false);
    assert_eq!(table.get(&1), Some(&11));
    assert_eq!(table.retain_touched(), vec![(1, 11)]);
    assert_eq!(table.get(&1), None);
}

#[test]
fn table_sweep_keeps_what_was_touched() {
    let mut table: Table<u64, u32> = Table::new();
    table.insert(1, 10, false);
    table.insert(2, 20, false);
    table.insert(3, 30, true);
    table.touch(&1);
    table.touch(&9);
    let mut evicted = table.retain_touched();
    evicted.sort();
    assert_eq!(evicted, vec![(2, 20)]);
    assert_eq!(table.get(&1), Some(&10));
    assert_eq!(table.get(&2), None);
    assert_eq!(table.get(&3), Some(&30));
    let mut evicted = table.retain_touched();
    evicted.sort();
    assert_eq!(evicted, vec![(1, 10), (3, 30)]);
    assert!(!table.contains(&1));
}

#[test]
fn vector_keys_differ_in_each_field() {
    let key = Key { id: 1, width: 2, height: 3, color: None };
    assert!(key.same(&Key { id: 1, width: 2, height: 3, color: None }));
    assert!(!key.same(&Key { id: 9, width: 2, height: 3, color: None }));
    assert!(!key.same(&Key { id: 1, width: 9, height: 3, color: None }));
    assert!(!key.same(&Key { id: 1, width: 2, height: 9, color: None }));
    let red = Color { r: 255, g: 0, b: 0, a: 255 };
    let tinted = Key { id: 1, width: 2, height: 3, color: Some(red) };
    assert!(!key.same(&tinted));
    assert!(!tinted.same(&key));
    assert!(tinted.same(&tinted));
    assert!(!tinted.same(&Key { color: Some(Color { r: 255, g: 0, b: 0, a: 254 }), ..tinted }));
    assert!(!tinted.same(&Key { color: Some(Color { r: 254, g: 0, b: 0, a: 255 }), ..tinted }));
    assert!(!tinted.same(&Key { color: Some(Color { r: 255, g: 1, b: 0, a: 255 }), ..tinted }));
    assert!(!tinted.same(&Key { color: Some(Color { r: 255, g: 0, b: 1, a: 255 }), ..tinted }));
    assert!(5u64.same(&5));
    assert!(!5u64.same(&6));
}

#[test]
fn encoder_starts_empty() {
    let encoder = Encoder::new();
    assert_eq!(encoder.len(), 0);
    assert_eq!(encoder.command(0), None);
}

#[test]
fn encoder_records_one_copy_for_each_rectangle() {
    let mut encoder = Encoder::new();
    let one = Allocation { x: 1, y: 2, width: 3, height: 4, layer: 5 };
    encoder.record(Source::Raster(8), &Entry::Contiguous(one));
    let left = Allocation { x: 0, y: 0, width: 2048, height: 7, layer: 1 };
    let right = Allocation { x: 0, y: 0, width: 100, height: 7, layer: 2 };
    let key = Key { id: 4, width: 2148, height: 7, color: None };
    encoder.record(
        Source::Vector(key),
        &Entry::Fragmented {
            size: Size::new(2148, 7),
            fragments: vec![
                Fragment { position: (0, 0), allocation: left },
                Fragment { position: (2048, 0), allocation: right },
            ],
        },
    );
    assert_eq!(encoder.len(), 3);
    assert_eq!(
        encoder.command(0),
        Some(Transfer { source: Source::Raster(8), offset: (0, 0), target: one })
    );
    assert_eq!(
        encoder.command(1),
        Some(Transfer { source: Source::Vector(key), offset: (0, 0), target: left })
    );
    assert_eq!(
        encoder.command(2),
        Some(Transfer { source: Source::Vector(key), offset: (2048, 0), target: right })
    );
    assert_eq!(encoder.command(3), None);
}

#[test]
fn encoder_records_nothing_for_no_fragments() {
    let mut encoder = Encoder::new();
    encoder.record(
        Source::Raster(8),
        &Entry::Fragmented { size: Size::new(5000, 5000), fragments: Vec::new() },
    );
    assert_eq!(encoder.len(), 0);
}

fn atlas() -> Atlas {
    Atlas::new(&Device { max_layers: 4 }, Backend::Dx12, Layout { id: 0 })
}

#[test]
fn raster_load_remembers_the_first_outcome() {
    let mut cache = raster::Cache::new();
    let handle = raster::Handle { id: 1, image: Some(Size::new(8, 9)) };
    assert_eq!(*cache.load(&handle), Memory::Host(Size::new(8, 9)));
    let other = raster::Handle { id: 1, image: None };
    assert_eq!(*cache.load(&other), Memory::Host(Size::new(8, 9)));
    let missing = raster::Handle { id: 2, image: None };
    assert_eq!(*cache.load(&missing), Memory::NotFound);
}

#[test]
fn memory_reports_dimensions() {
    assert_eq!(Memory::Host(Size::new(8, 9)).dimensions(), Size::new(8, 9));
    assert_eq!(Memory::NotFound.dimensions(), Size::new(1, 1));
    let entry = Entry::Contiguous(Allocation { x: 0, y: 0, width: 6, height: 7, layer: 0 });
    assert_eq!(Memory::Device(entry).dimensions(), Size::new(6, 7));
}

#[test]
fn raster_upload_places_once() {
    let mut cache = raster::Cache::new();
    let mut atlas = atlas();
    let mut encoder = Encoder::new();
    let handle = raster::Handle { id: 1, image: Some(Size::new(8, 9)) };
    let expected = Entry::Contiguous(Allocation { x: 0, y: 0, width: 8, height: 9, layer: 0 });
    assert_eq!(cache.atlas_entry(&handle), None);
    assert_eq!(cache.upload(&mut encoder, &handle, &mut atlas), Some(&expected));
    assert_eq!(cache.upload(&mut encoder, &handle, &mut atlas), Some(&expected));
    assert_eq!(cache.atlas_entry(&handle), Some(&expected));
    assert_eq!(encoder.len(), 1);
    assert_eq!(*cache.load(&handle), Memory::Device(expected));
}

#[test]
fn raster_upload_without_room_keeps_the_image_decoded() {
    let mut cache = raster::Cache::new();
    let mut atlas = Atlas::new(&Device { max_layers: 1 }, Backend::Vulkan, Layout { id: 0 });
    let mut encoder = Encoder::new();
    let large = raster::Handle { id: 1, image: Some(Size::new(4096, 8)) };
    assert_eq!(cache.upload(&mut encoder, &large, &mut atlas), None);
    assert_eq!(*cache.load(&large), Memory::Host(Size::new(4096, 8)));
    assert_eq!(encoder.len(), 0);
    assert_eq!(atlas.layer_count(), 1);
}

#[test]
fn raster_trim_frees_what_was_not_used() {
    let mut cache = raster::Cache::new();
    let mut atlas = Atlas::new(&Device { max_layers: 1 }, Backend::Vulkan, Layout { id: 0 });
    let mut encoder = Encoder::new();
    let whole = raster::Handle { id: 1, image: Some(Size::new(2048, 2048)) };
    assert!(cache.upload(&mut encoder, &whole, &mut atlas).is_some());
    assert_eq!(atlas.allocate(Size::new(1, 1)), None);
    cache.trim(&mut atlas);
    assert_eq!(atlas.allocate(Size::new(1, 1)), None);
    assert!(cache.atlas_entry(&whole).is_some());
    cache.trim(&mut atlas);
    assert_eq!(atlas.allocate(Size::new(1, 1)), None);
    cache.trim(&mut atlas);
    assert_eq!(cache.atlas_entry(&whole), None);
    assert!(atlas.allocate(Size::new(1, 1)).is_some());
}

#[test]
fn svg_reports_viewport() {
    assert_eq!(Svg::Loaded(Size::new(24, 12)).viewport_dimensions(), Size::new(24, 12));
    assert_eq!(Svg::NotFound.viewport_dimensions(), Size::new(1, 1));
}

#[test]
fn vector_load_remembers_the_first_outcome() {
    let mut cache = vector::Cache::new();
    let handle = vector::Handle { id: 1, viewport: Some(Size::new(24, 12)) };
    assert_eq!(*cache.load(&handle), Svg::Loaded(Size::new(24, 12)));
    let other = vector::Handle { id: 1, viewport: None };
    assert_eq!(*cache.load(&other), Svg::Loaded(Size::new(24, 12)));
    assert_eq!(*cache.load(&vector::Handle { id: 2, viewport: None }), Svg::NotFound);
}

#[test]
fn vector_cache_keys_on_size_and_color() {
    let mut cache = vector::Cache::new();
    let mut atlas = atlas();
    let mut encoder = Encoder::new();
    let handle = vector::Handle { id: 1, viewport: Some(Size::new(24, 12)) };
    let blue = Some(Color { r: 0, g: 0, b: 255, a: 255 });
    let plain = Entry::Contiguous(Allocation { x: 0, y: 0, width: 10, height: 10, layer: 0 });
    let tinted = Entry::Contiguous(Allocation { x: 10, y: 0, width: 10, height: 10, layer: 0 });
    assert_eq!(
        cache.upload(&mut encoder, &handle, None, Size::new(10, 10), &mut atlas),
        Some(&plain)
    );
    assert_eq!(
        cache.upload(&mut encoder, &handle, blue, Size::new(10, 10), &mut atlas),
        Some(&tinted)
    );
    assert_eq!(cache.atlas_entry(&handle, None, Size::new(10, 10)), Some(&plain));
    assert_eq!(cache.atlas_entry(&handle, blue, Size::new(10, 10)), Some(&tinted));
    assert_eq!(cache.atlas_entry(&handle, blue, Size::new(10, 11)), None);
    assert_eq!(encoder.len(), 2);
}

#[test]
fn vector_trim_frees_what_was_not_used() {
    let mut cache = vector::Cache::new();
    let mut atlas = Atlas::new(&Device { max_layers: 1 }, Backend::Vulkan, Layout { id: 0 });
    let mut encoder = Encoder::new();
    let handle = vector::Handle { id: 1, viewport: Some(Size::new(24, 12)) };
    assert!(cache.upload(&mut encoder, &handle, None, Size::new(2048, 2048), &mut atlas).is_some());
    assert_eq!(cache.upload(&mut encoder, &handle, None, Size::new(1, 1), &mut atlas), None);
    cache.trim(&mut atlas);
    cache.trim(&mut atlas);
    assert_eq!(cache.atlas_entry(&handle, None, Size::new(2048, 2048)), None);
    assert!(cache.upload(&mut encoder, &handle, None, Size::new(1, 1), &mut atlas).is_some());
}
