use atlas_cache::atlas::{Backend, BindGroup, Device, Layout};
use atlas_cache::cache::{AtlasRegion, Cache};
use atlas_cache::encoder::{Encoder, Source, Transfer};
use atlas_cache::entry::{Allocation, Entry};
use atlas_cache::geometry::Size;
use atlas_cache::raster::Handle;
use atlas_cache::vector;
use atlas_cache::vector::{Color, Key};

fn create_cache() -> Cache {
    Cache::new(&Device { max_layers: 256 }, Backend::Vulkan, Layout { id: 1 })
}

fn solid_handle(seed: u8) -> Handle {
    const WIDTH: u32 = 4;
    const HEIGHT: u32 = 4;

    Handle { id: u64::from(seed), image: Some(Size::new(WIDTH, HEIGHT)) }
}

#[test]
fn cached_regions_survive_trim_after_hit() {
    let mut cache = create_cache();

    let handle = solid_handle(64);
    let mut encoder = Encoder::new();

    assert!(cache.ensure_raster_region(&mut encoder, &handle).is_some());

    // First frame trim: retains the allocation and resets cache bookkeeping.
    cache.trim();

    // Simulate a second frame: upload a new handle while touching the old
    // one to register a cache hit before the next trim.
    let new_handle = solid_handle(192);
    let mut encoder = Encoder::new();

    assert!(cache.ensure_raster_region(&mut encoder, &new_handle).is_some());

    assert!(cache.cached_raster_region(&handle).is_some());
    assert!(cache.cached_raster_region(&new_handle).is_some());

    cache.trim();

    assert!(cache.cached_raster_region(&handle).is_some());
    assert!(cache.cached_raster_region(&new_handle).is_some());
}

#[test]
fn new_cache_holds_nothing() {
    let mut cache = Cache::new(&Device { max_layers: 16 }, Backend::Metal, Layout { id: 42 });
    assert_eq!(cache.layer_count(), 1);
    assert_eq!(*cache.bind_group(), BindGroup { layout: Layout { id: 42 }, layers: 1 });
    assert_eq!(cache.texture_layout(), Layout { id: 42 });
    assert_eq!(cache.cached_raster_region(&solid_handle(1)), None);
}

#[test]
fn new_cache_on_gl_has_two_layers() {
    let cache = Cache::new(&Device { max_layers: 16 }, Backend::Gl, Layout { id: 3 });
    assert_eq!(cache.layer_count(), 2);
    assert_eq!(cache.bind_group().layers, 2);
}

#[test]
fn ensure_returns_the_region_of_the_placement() {
    let mut cache = create_cache();
    let mut encoder = Encoder::new();
    let region = cache.ensure_raster_region(&mut encoder, &solid_handle(64));
    assert_eq!(
        region,
        Some(AtlasRegion { uv_min: (0, 0), uv_max: (4, 4), extent: 2048, layer: 0 })
    );
    let region = cache.ensure_raster_region(&mut encoder, &solid_handle(192));
    assert_eq!(
        region,
        Some(AtlasRegion { uv_min: (4, 0), uv_max: (8, 4), extent: 2048, layer: 0 })
    );
}

#[test]
fn ensure_twice_gives_the_same_region_and_uploads_once() {
    let mut cache = create_cache();
    let mut encoder = Encoder::new();
    let handle = solid_handle(64);
    let first = cache.ensure_raster_region(&mut encoder, &handle);
    assert!(first.is_some());
    assert_eq!(encoder.len(), 1);
    let second = cache.ensure_raster_region(&mut encoder, &handle);
    assert_eq!(second, first);
    assert_eq!(encoder.len(), 1);
    assert_eq!(
        encoder.command(0),
        Some(Transfer {
            source: Source::Raster(64),
            offset: (0, 0),
            target: Allocation { x: 0, y: 0, width: 4, height: 4, layer: 0 },
        })
    );
    assert_eq!(encoder.command(1), None);
}

#[test]
fn upload_returns_the_stored_placement() {
    let mut cache = create_cache();
    let mut encoder = Encoder::new();
    let handle = Handle { id: 5, image: Some(Size::new(300, 200)) };
    let expected = Entry::Contiguous(Allocation { x: 0, y: 0, width: 300, height: 200, layer: 0 });
    assert_eq!(cache.upload_raster(&mut encoder, &handle), Some(&expected));
    assert_eq!(cache.upload_raster(&mut encoder, &handle), Some(&expected));
    assert_eq!(encoder.len(), 1);
}

#[test]
fn neglected_image_is_evicted() {
    let mut cache = create_cache();
    let mut encoder = Encoder::new();
    let handle = solid_handle(64);
    assert!(cache.ensure_raster_region(&mut encoder, &handle).is_some());
    cache.trim();
    cache.trim();
    assert_eq!(cache.cached_raster_region(&handle), None);
}

#[test]
fn evicted_image_is_placed_anew() {
    let mut cache = create_cache();
    let mut encoder = Encoder::new();
    let handle = solid_handle(64);
    let first = cache.ensure_raster_region(&mut encoder, &handle);
    cache.trim();
    cache.trim();
    assert_eq!(cache.cached_raster_region(&handle), None);
    let again = cache.ensure_raster_region(&mut encoder, &handle);
    assert_eq!(again, first);
    assert_eq!(encoder.len(), 2);
}

#[test]
fn room_of_an_evicted_image_is_given_back() {
    let mut cache = Cache::new(&Device { max_layers: 1 }, Backend::Vulkan, Layout { id: 1 });
    let mut encoder = Encoder::new();
    let large = Handle { id: 1, image: Some(Size::new(2048, 2048)) };
    let small = Handle { id: 2, image: Some(Size::new(16, 16)) };
    assert!(cache.ensure_raster_region(&mut encoder, &large).is_some());
    assert_eq!(cache.ensure_raster_region(&mut encoder, &small), None);
    cache.trim();
    assert_eq!(cache.ensure_raster_region(&mut encoder, &small), None);
    cache.trim();
    assert_eq!(
        cache.ensure_raster_region(&mut encoder, &small),
        Some(AtlasRegion { uv_min: (0, 0), uv_max: (16, 16), extent: 2048, layer: 0 })
    );
}

#[test]
fn lookup_places_nothing() {
    let mut cache = create_cache();
    let handle = solid_handle(64);
    assert_eq!(cache.cached_raster_region(&handle), None);
    assert_eq!(cache.cached_raster_region(&handle), None);
    let mut encoder = Encoder::new();
    assert_eq!(
        cache.ensure_raster_region(&mut encoder, &handle),
        Some(AtlasRegion { uv_min: (0, 0), uv_max: (4, 4), extent: 2048, layer: 0 })
    );
}

#[test]
fn measure_returns_the_decoded_size() {
    let mut cache = create_cache();
    let handle = Handle { id: 9, image: Some(Size::new(640, 480)) };
    assert_eq!(cache.measure_image(&handle), Size::new(640, 480));
    assert_eq!(cache.cached_raster_region(&handle), None);
}

#[test]
fn measure_keeps_the_first_answer() {
    let mut cache = create_cache();
    assert_eq!(
        cache.measure_image(&Handle { id: 9, image: Some(Size::new(640, 480)) }),
        Size::new(640, 480)
    );
    assert_eq!(
        cache.measure_image(&Handle { id: 9, image: Some(Size::new(1, 2)) }),
        Size::new(640, 480)
    );
}

#[test]
fn measure_of_an_undecodable_image_is_one_pixel() {
    let mut cache = create_cache();
    let handle = Handle { id: 9, image: None };
    assert_eq!(cache.measure_image(&handle), Size::new(1, 1));
    let mut encoder = Encoder::new();
    assert_eq!(cache.ensure_raster_region(&mut encoder, &handle), None);
    assert_eq!(encoder.len(), 0);
}

#[test]
fn measure_of_a_placed_image_is_its_size() {
    let mut cache = create_cache();
    let mut encoder = Encoder::new();
    let handle = Handle { id: 9, image: Some(Size::new(5000, 30)) };
    assert!(cache.ensure_raster_region(&mut encoder, &handle).is_some());
    assert_eq!(cache.measure_image(&handle), Size::new(5000, 30));
}

#[test]
fn measure_does_not_keep_an_image_alive() {
    let mut cache = create_cache();
    let mut encoder = Encoder::new();
    let handle = solid_handle(64);
    assert!(cache.ensure_raster_region(&mut encoder, &handle).is_some());
    cache.trim();
    assert_eq!(cache.measure_image(&handle), Size::new(4, 4));
    cache.trim();
    assert_eq!(cache.cached_raster_region(&handle), None);
}

#[test]
fn region_layer_is_below_layer_count() {
    let mut cache = create_cache();
    let mut encoder = Encoder::new();
    for id in 0..6u64 {
        let handle = Handle { id, image: Some(Size::new(2048, 1500)) };
        let region = cache.ensure_raster_region(&mut encoder, &handle).unwrap();
        assert!((region.layer as usize) < cache.layer_count());
        assert_eq!(cache.bind_group().layers as usize, cache.layer_count());
    }
    assert_eq!(cache.layer_count(), 6);
    cache.trim();
    cache.trim();
    assert_eq!(cache.layer_count(), 6);
}

#[test]
fn fragmented_image_records_one_copy_for_each_piece() {
    let mut cache = create_cache();
    let mut encoder = Encoder::new();
    let handle = Handle { id: 3, image: Some(Size::new(3000, 10)) };
    let region = cache.ensure_raster_region(&mut encoder, &handle);
    assert_eq!(
        region,
        Some(AtlasRegion { uv_min: (0, 0), uv_max: (3000, 10), extent: 2048, layer: 0 })
    );
    assert_eq!(encoder.len(), 2);
    assert_eq!(
        encoder.command(1),
        Some(Transfer {
            source: Source::Raster(3),
            offset: (2048, 0),
            target: Allocation { x: 0, y: 0, width: 952, height: 10, layer: 1 },
        })
    );
}

fn svg(id: u64) -> vector::Handle {
    vector::Handle { id, viewport: Some(Size::new(24, 24)) }
}

#[test]
fn measure_svg_returns_the_viewport() {
    let mut cache = create_cache();
    assert_eq!(cache.measure_svg(&svg(1)), Size::new(24, 24));
    assert_eq!(cache.measure_svg(&vector::Handle { id: 2, viewport: None }), Size::new(1, 1));
}

#[test]
fn vector_upload_places_at_the_requested_size() {
    let mut cache = create_cache();
    let mut encoder = Encoder::new();
    let expected = Entry::Contiguous(Allocation { x: 0, y: 0, width: 48, height: 32, layer: 0 });
    assert_eq!(
        cache.upload_vector(&mut encoder, &svg(1), None, Size::new(48, 32)),
        Some(&expected)
    );
    assert_eq!(
        encoder.command(0),
        Some(Transfer {
            source: Source::Vector(Key { id: 1, width: 48, height: 32, color: None }),
            offset: (0, 0),
            target: Allocation { x: 0, y: 0, width: 48, height: 32, layer: 0 },
        })
    );
}

#[test]
fn vector_upload_of_an_unparsable_image_gives_nothing() {
    let mut cache = create_cache();
    let mut encoder = Encoder::new();
    let handle = vector::Handle { id: 2, viewport: None };
    assert_eq!(cache.upload_vector(&mut encoder, &handle, None, Size::new(48, 32)), None);
    assert_eq!(encoder.len(), 0);
}

#[test]
fn vector_upload_at_an_empty_size_gives_nothing() {
    let mut cache = create_cache();
    let mut encoder = Encoder::new();
    assert_eq!(cache.upload_vector(&mut encoder, &svg(1), None, Size::new(0, 32)), None);
    assert_eq!(cache.ensure_vector_region(&mut encoder, &svg(1), None, Size::new(32, 0)), None);
    assert_eq!(encoder.len(), 0);
}

#[test]
fn vector_keys_have_placements_of_their_own() {
    let mut cache = create_cache();
    let mut encoder = Encoder::new();
    let red = Some(Color { r: 255, g: 0, b: 0, a: 255 });
    let small = cache.ensure_vector_region(&mut encoder, &svg(1), None, Size::new(16, 16));
    let large = cache.ensure_vector_region(&mut encoder, &svg(1), None, Size::new(32, 32));
    let tinted = cache.ensure_vector_region(&mut encoder, &svg(1), red, Size::new(16, 16));
    assert_eq!(
        small,
        Some(AtlasRegion { uv_min: (0, 0), uv_max: (16, 16), extent: 2048, layer: 0 })
    );
    assert_eq!(
        large,
        Some(AtlasRegion { uv_min: (16, 0), uv_max: (48, 32), extent: 2048, layer: 0 })
    );
    assert_eq!(
        tinted,
        Some(AtlasRegion { uv_min: (0, 16), uv_max: (16, 32), extent: 2048, layer: 0 })
    );
    assert_eq!(encoder.len(), 3);
    assert_eq!(
        cache.ensure_vector_region(&mut encoder, &svg(1), None, Size::new(16, 16)),
        small
    );
    assert_eq!(encoder.len(), 3);
}

#[test]
fn vector_keys_are_evicted_on_their_own() {
    let mut cache = create_cache();
    let mut encoder = Encoder::new();
    let small = cache.ensure_vector_region(&mut encoder, &svg(1), None, Size::new(16, 16));
    let large = cache.ensure_vector_region(&mut encoder, &svg(1), None, Size::new(32, 32));
    assert!(small.is_some());
    assert!(large.is_some());
    cache.trim();
    assert_eq!(cache.cached_vector_region(&svg(1), None, Size::new(32, 32)), large);
    cache.trim();
    assert_eq!(cache.cached_vector_region(&svg(1), None, Size::new(16, 16)), None);
    assert_eq!(cache.cached_vector_region(&svg(1), None, Size::new(32, 32)), large);
}

#[test]
fn raster_and_vector_images_share_the_atlas() {
    let mut cache = create_cache();
    let mut encoder = Encoder::new();
    let raster = cache.ensure_raster_region(&mut encoder, &solid_handle(1)).unwrap();
    let vector = cache.ensure_vector_region(&mut encoder, &svg(1), None, Size::new(4, 4)).unwrap();
    assert_eq!(raster.uv_min, (0, 0));
    assert_eq!(vector.uv_min, (4, 0));
    assert_eq!(raster.layer, vector.layer);
}

#[test]
fn cache_knows_an_image_until_it_is_swept() {
    let mut cache = create_cache();
    let handle = solid_handle(64);
    assert!(!cache.is_known_image(&handle));
    assert_eq!(cache.measure_image(&handle), Size::new(4, 4));
    assert!(cache.is_known_image(&handle));
    cache.trim();
    assert!(!cache.is_known_image(&handle));
    assert!(!cache.is_known_svg(&svg(64)));
    assert_eq!(cache.measure_svg(&svg(64)), Size::new(24, 24));
    assert!(cache.is_known_svg(&svg(64)));
    let mut encoder = Encoder::new();
    assert!(cache.ensure_vector_region(&mut encoder, &svg(64), None, Size::new(8, 8)).is_some());
    cache.trim();
    assert!(cache.is_known_svg(&svg(64)));
    cache.trim();
    assert!(!cache.is_known_svg(&svg(64)));
}
