//! The cache that the renderer talks to, and the regions it hands out.

use vstd::prelude::*;
use crate::atlas::{initial_layers, sound, Atlas, Backend, BindGroup, Device, Layout};
use crate::encoder::{Encoder, Transfer};
use crate::entry::{Allocation, Entry, SIZE};
use crate::geometry::Size;
use crate::raster;
use crate::raster::Memory;
use crate::table::{marked, survivors};
use crate::vector;
use crate::vector::{Color, Key, Svg};

verus! {

/// Where to sample an image: two corners in texture coordinates and a layer.
///
/// A coordinate is the fraction `n / extent`: the corners hold the numerators
/// and `extent` the common denominator, so no rounding happens here.
#[derive(Clone, Copy, Debug, PartialEq, Eq)]
pub struct AtlasRegion {
    /// Numerators of the top-left corner.
    pub uv_min: (u64, u64),
    /// Numerators of the bottom-right corner.
    pub uv_max: (u64, u64),
    /// Denominator of all four coordinates: the edge length of a layer.
    pub extent: u32,
    /// Layer to sample from.
    pub layer: u32,
}

impl AtlasRegion {
    /// The region of an image whose top-left corner sits at `(x, y)` of
    /// `layer` and which is `width` by `height` pixels large.
    pub open spec fn spanning(x: u32, y: u32, width: u32, height: u32, layer: u32) -> AtlasRegion {
        AtlasRegion {
            uv_min: (x as u64, y as u64),
            uv_max: ((x + width) as u64, (y + height) as u64),
            extent: SIZE,
            layer,
        }
    }

    /// The region that stands for "nothing to sample".
    pub open spec fn nothing() -> AtlasRegion {
        AtlasRegion { uv_min: (0, 0), uv_max: (0, 0), extent: SIZE, layer: 0 }
    }

    /// The region that a placement is sampled through.
    ///
    /// A fragmented placement is sampled through its first piece alone: the
    /// corner of that piece and the extent of the whole image.
    pub open spec fn of(entry: &Entry) -> AtlasRegion {
        match *entry {
            Entry::Contiguous(a) => Self::spanning(a.x, a.y, a.width, a.height, a.layer),
            Entry::Fragmented { size, fragments } => if fragments@.len() == 0 {
                Self::nothing()
            } else {
                let first = fragments@[0];
                Self::spanning(
                    first.position.0,
                    first.position.1,
                    size.width,
                    size.height,
                    first.allocation.layer,
                )
            },
        }
    }
}

/// The region that an optional placement is sampled through.
pub open spec fn resolved(entry: Option<Entry>) -> Option<AtlasRegion> {
    match entry {
        Some(entry) => Some(AtlasRegion::of(&entry)),
        None => None,
    }
}

/// The rectangle `a` belongs to the placement of some image.
pub open spec fn claimed(
    images: Map<u64, (Memory, bool)>,
    rasters: Map<Key, (Entry, bool)>,
    a: Allocation,
) -> bool {
    ||| exists|id: u64| raster::claims(images, id, a)
    ||| exists|key: Key| vector::claims(rasters, key, a)
}

/// The placements that the sub-caches remember are exactly what the atlas
/// holds: every rectangle in use belongs to the placement of one image, and
/// to no other.
pub open spec fn owned(
    images: Map<u64, (Memory, bool)>,
    rasters: Map<Key, (Entry, bool)>,
    live: Set<Allocation>,
) -> bool {
    &&& forall|a: Allocation| #[trigger] live.contains(a) <==> claimed(images, rasters, a)
    &&& forall|a: Allocation, i: u64, j: u64|
        #[trigger] raster::claims(images, i, a) && #[trigger] raster::claims(images, j, a) ==> i
            == j
    &&& forall|a: Allocation, i: Key, j: Key|
        #[trigger] vector::claims(rasters, i, a) && #[trigger] vector::claims(rasters, j, a) ==> i
            == j
    &&& forall|a: Allocation, i: u64, j: Key|
        !(#[trigger] raster::claims(images, i, a) && #[trigger] vector::claims(rasters, j, a))
}

pub(crate) proof fn lemma_same_images(
    images: Map<u64, (Memory, bool)>,
    images2: Map<u64, (Memory, bool)>,
    rasters: Map<Key, (Entry, bool)>,
    live: Set<Allocation>,
)
    requires
        owned(images, rasters, live),
        forall|id: u64| raster::placement(images2, id) == raster::placement(images, id),
    ensures
        owned(images2, rasters, live),
{
    assert forall|a: Allocation, id: u64|
        raster::claims(images2, id, a) == raster::claims(images, id, a) by {
        assert(raster::placement(images2, id) == raster::placement(images, id));
    }
    assert forall|a: Allocation| #[trigger] live.contains(a) <==> claimed(images2, rasters, a) by {
        if claimed(images, rasters, a) && exists|id: u64| raster::claims(images, id, a) {
            let id = choose|id: u64| raster::claims(images, id, a);
            assert(raster::claims(images2, id, a));
        }
        if claimed(images2, rasters, a) && exists|id: u64| raster::claims(images2, id, a) {
            let id = choose|id: u64| raster::claims(images2, id, a);
            assert(raster::claims(images, id, a));
        }
    }
}

pub(crate) proof fn lemma_same_rasters(
    images: Map<u64, (Memory, bool)>,
    rasters: Map<Key, (Entry, bool)>,
    rasters2: Map<Key, (Entry, bool)>,
    live: Set<Allocation>,
)
    requires
        owned(images, rasters, live),
        forall|key: Key| vector::placement(rasters2, key) == vector::placement(rasters, key),
    ensures
        owned(images, rasters2, live),
{
    assert forall|a: Allocation, key: Key|
        vector::claims(rasters2, key, a) == vector::claims(rasters, key, a) by {
        assert(vector::placement(rasters2, key) == vector::placement(rasters, key));
    }
    assert forall|a: Allocation| #[trigger] live.contains(a) <==> claimed(images, rasters2, a) by {
        if claimed(images, rasters, a) && exists|key: Key| vector::claims(rasters, key, a) {
            let key = choose|key: Key| vector::claims(rasters, key, a);
            assert(vector::claims(rasters2, key, a));
        }
        if claimed(images, rasters2, a) && exists|key: Key| vector::claims(rasters2, key, a) {
            let key = choose|key: Key| vector::claims(rasters2, key, a);
            assert(vector::claims(rasters, key, a));
        }
    }
}

pub(crate) proof fn lemma_fresh(atlas: Atlas, size: Size, entry: Entry, atlas_after: Atlas, a: Allocation)
    requires
        atlas.grants(size, &entry, &atlas_after),
        entry.holdings().contains(a),
    ensures
        !atlas.live().contains(a),
{
    let i = choose|i: int| 0 <= i < entry.allocations().len() && entry.allocations()[i] == a;
    assert(crate::atlas::free_at(atlas.live(), entry.allocations()[i]));
    if atlas.live().contains(a) {
        assert(a.overlaps(a));
    }
}

pub(crate) proof fn lemma_granted_raster(
    images: Map<u64, (Memory, bool)>,
    rasters: Map<Key, (Entry, bool)>,
    atlas: Atlas,
    size: Size,
    entry: Entry,
    atlas_after: Atlas,
    id: u64,
)
    requires
        owned(images, rasters, atlas.live()),
        atlas.grants(size, &entry, &atlas_after),
        raster::placement(images, id) is None,
    ensures
        owned(images.insert(id, (Memory::Device(entry), true)), rasters, atlas_after.live()),
{
    let images2 = images.insert(id, (Memory::Device(entry), true));
    let live = atlas.live();
    let live2 = atlas_after.live();
    assert forall|a: Allocation, i: u64|
        #[trigger] raster::claims(images2, i, a) == if i == id {
            entry.holdings().contains(a)
        } else {
            raster::claims(images, i, a)
        } by {}
    assert forall|a: Allocation| entry.holdings().contains(a) implies !live.contains(a) by {
        lemma_fresh(atlas, size, entry, atlas_after, a);
    }
    assert forall|a: Allocation| #[trigger] live2.contains(a) <==> claimed(images2, rasters, a) by {
        if live2.contains(a) {
            if entry.holdings().contains(a) {
                assert(raster::claims(images2, id, a));
            } else {
                assert(live.contains(a));
                if exists|i: u64| raster::claims(images, i, a) {
                    let i = choose|i: u64| raster::claims(images, i, a);
                    assert(raster::claims(images2, i, a));
                }
            }
        }
        if claimed(images2, rasters, a) {
            if exists|i: u64| raster::claims(images2, i, a) {
                let i = choose|i: u64| raster::claims(images2, i, a);
                if i != id {
                    assert(raster::claims(images, i, a));
                }
            }
        }
    }
    assert forall|a: Allocation, i: u64, j: u64|
        #[trigger] raster::claims(images2, i, a) && #[trigger] raster::claims(
            images2,
            j,
            a,
        ) implies i == j by {
        if i != id {
            assert(raster::claims(images, i, a));
            assert(live.contains(a));
        }
        if j != id {
            assert(raster::claims(images, j, a));
            assert(live.contains(a));
        }
    }
    assert forall|a: Allocation, i: u64, j: Key|
        !(#[trigger] raster::claims(images2, i, a) && #[trigger] vector::claims(rasters, j, a)) by {
        if raster::claims(images2, i, a) && vector::claims(rasters, j, a) {
            assert(live.contains(a));
            if i != id {
                assert(raster::claims(images, i, a));
            }
        }
    }
}

pub(crate) proof fn lemma_granted_vector(
    images: Map<u64, (Memory, bool)>,
    rasters: Map<Key, (Entry, bool)>,
    atlas: Atlas,
    size: Size,
    entry: Entry,
    atlas_after: Atlas,
    key: Key,
)
    requires
        owned(images, rasters, atlas.live()),
        atlas.grants(size, &entry, &atlas_after),
        !rasters.contains_key(key),
    ensures
        owned(images, rasters.insert(key, (entry, true)), atlas_after.live()),
{
    let rasters2 = rasters.insert(key, (entry, true));
    let live = atlas.live();
    let live2 = atlas_after.live();
    assert forall|a: Allocation, i: Key|
        #[trigger] vector::claims(rasters2, i, a) == if i == key {
            entry.holdings().contains(a)
        } else {
            vector::claims(rasters, i, a)
        } by {}
    assert forall|a: Allocation| entry.holdings().contains(a) implies !live.contains(a) by {
        lemma_fresh(atlas, size, entry, atlas_after, a);
    }
    assert forall|a: Allocation| #[trigger] live2.contains(a) <==> claimed(images, rasters2, a) by {
        if live2.contains(a) {
            if entry.holdings().contains(a) {
                assert(vector::claims(rasters2, key, a));
            } else {
                assert(live.contains(a));
                if exists|i: Key| vector::claims(rasters, i, a) {
                    let i = choose|i: Key| vector::claims(rasters, i, a);
                    assert(vector::claims(rasters2, i, a));
                }
            }
        }
        if claimed(images, rasters2, a) {
            if exists|i: Key| vector::claims(rasters2, i, a) {
                let i = choose|i: Key| vector::claims(rasters2, i, a);
                if i != key {
                    assert(vector::claims(rasters, i, a));
                }
            }
        }
    }
    assert forall|a: Allocation, i: Key, j: Key|
        #[trigger] vector::claims(rasters2, i, a) && #[trigger] vector::claims(
            rasters2,
            j,
            a,
        ) implies i == j by {
        if i != key {
            assert(vector::claims(rasters, i, a));
            assert(live.contains(a));
        }
        if j != key {
            assert(vector::claims(rasters, j, a));
            assert(live.contains(a));
        }
    }
    assert forall|a: Allocation, i: u64, j: Key|
        !(#[trigger] raster::claims(images, i, a) && #[trigger] vector::claims(rasters2, j, a)) by {
        if raster::claims(images, i, a) && vector::claims(rasters2, j, a) {
            assert(live.contains(a));
            if j != key {
                assert(vector::claims(rasters, j, a));
            }
        }
    }
}

pub(crate) proof fn lemma_trimmed_raster(
    images: Map<u64, (Memory, bool)>,
    rasters: Map<Key, (Entry, bool)>,
    live: Set<Allocation>,
)
    requires
        owned(images, rasters, live),
    ensures
        owned(survivors(images), rasters, live.difference(raster::released(images))),
{
    let images2 = survivors(images);
    let live2 = live.difference(raster::released(images));
    assert forall|a: Allocation, i: u64|
        #[trigger] raster::claims(images2, i, a) == (raster::claims(images, i, a)
            && images[i].1) by {}
    assert forall|a: Allocation| #[trigger] live2.contains(a) <==> claimed(images2, rasters, a) by {
        if live2.contains(a) {
            assert(live.contains(a));
            if exists|i: u64| raster::claims(images, i, a) {
                let i = choose|i: u64| raster::claims(images, i, a);
                assert(raster::claims(images2, i, a));
            }
        }
        if claimed(images2, rasters, a) {
            if exists|i: u64| raster::claims(images2, i, a) {
                let i = choose|i: u64| raster::claims(images2, i, a);
                assert(raster::claims(images, i, a));
                assert(live.contains(a));
                if raster::released(images).contains(a) {
                    let j = choose|j: u64| #[trigger] raster::claims(images, j, a) && !images[j].1;
                    assert(i == j);
                }
            } else {
                let k = choose|k: Key| vector::claims(rasters, k, a);
                assert(live.contains(a));
                if raster::released(images).contains(a) {
                    let j = choose|j: u64| #[trigger] raster::claims(images, j, a) && !images[j].1;
                    assert(false);
                }
            }
        }
    }
    assert forall|a: Allocation, i: u64, j: u64|
        #[trigger] raster::claims(images2, i, a) && #[trigger] raster::claims(
            images2,
            j,
            a,
        ) implies i == j by {
        assert(raster::claims(images, i, a) && raster::claims(images, j, a));
    }
    assert forall|a: Allocation, i: u64, j: Key|
        !(#[trigger] raster::claims(images2, i, a) && #[trigger] vector::claims(rasters, j, a)) by {
        if raster::claims(images2, i, a) {
            assert(raster::claims(images, i, a));
        }
    }
}

pub(crate) proof fn lemma_trimmed_vector(
    images: Map<u64, (Memory, bool)>,
    rasters: Map<Key, (Entry, bool)>,
    live: Set<Allocation>,
)
    requires
        owned(images, rasters, live),
    ensures
        owned(images, survivors(rasters), live.difference(vector::released(rasters))),
{
    let rasters2 = survivors(rasters);
    let live2 = live.difference(vector::released(rasters));
    assert forall|a: Allocation, i: Key|
        #[trigger] vector::claims(rasters2, i, a) == (vector::claims(rasters, i, a)
            && rasters[i].1) by {}
    assert forall|a: Allocation| #[trigger] live2.contains(a) <==> claimed(images, rasters2, a) by {
        if live2.contains(a) {
            assert(live.contains(a));
            if exists|i: Key| vector::claims(rasters, i, a) {
                let i = choose|i: Key| vector::claims(rasters, i, a);
                assert(vector::claims(rasters2, i, a));
            }
        }
        if claimed(images, rasters2, a) {
            if exists|i: Key| vector::claims(rasters2, i, a) {
                let i = choose|i: Key| vector::claims(rasters2, i, a);
                assert(vector::claims(rasters, i, a));
                assert(live.contains(a));
                if vector::released(rasters).contains(a) {
                    let j = choose|j: Key| #[trigger]
                        vector::claims(rasters, j, a) && !rasters[j].1;
                    assert(i == j);
                }
            } else {
                let k = choose|k: u64| raster::claims(images, k, a);
                assert(live.contains(a));
                if vector::released(rasters).contains(a) {
                    let j = choose|j: Key| #[trigger]
                        vector::claims(rasters, j, a) && !rasters[j].1;
                    assert(false);
                }
            }
        }
    }
    assert forall|a: Allocation, i: Key, j: Key|
        #[trigger] vector::claims(rasters2, i, a) && #[trigger] vector::claims(
            rasters2,
            j,
            a,
        ) implies i == j by {
        assert(vector::claims(rasters, i, a) && vector::claims(rasters, j, a));
    }
    assert forall|a: Allocation, i: u64, j: Key|
        !(#[trigger] raster::claims(images, i, a) && #[trigger] vector::claims(rasters2, j, a)) by {
        if vector::claims(rasters2, j, a) {
            assert(vector::claims(rasters, j, a));
        }
    }
}

pub(crate) proof fn lemma_region_layer(entry: Entry, live: Set<Allocation>, layers: u32)
    requires
        sound(live, layers),
        forall|a: Allocation| entry.holdings().contains(a) ==> live.contains(a),
    ensures
        AtlasRegion::of(&entry).layer < layers,
{
    if entry.allocations().len() > 0 {
        let first = entry.allocations()[0];
        assert(entry.holdings().contains(first));
        assert(live.contains(first));
    }
}

/// The cache that the renderer talks to: an atlas and one sub-cache for each
/// kind of image.
pub struct Cache {
    atlas: Atlas,
    raster: raster::Cache,
    vector: vector::Cache,
}

impl Cache {
    /// The atlas.
    pub closed spec fn atlas(&self) -> Atlas {
        self.atlas
    }

    /// What is known of each raster image, and whether it was used this
    /// cycle.
    pub closed spec fn images(&self) -> Map<u64, (Memory, bool)> {
        self.raster@
    }

    /// What is known of each vector image, and whether it was used this
    /// cycle.
    pub closed spec fn sources(&self) -> Map<u64, (Svg, bool)> {
        self.vector.sources()
    }

    /// The placement of each rasterization of a vector image, and whether
    /// it was used this cycle.
    pub closed spec fn rasters(&self) -> Map<Key, (Entry, bool)> {
        self.vector.rasters()
    }

    /// The representations of the sub-caches are well formed.
    pub closed spec fn inv(&self) -> bool {
        self.raster.wf() && self.vector.wf()
    }

    /// The placements that the cache remembers are exactly what the atlas
    /// holds, and the atlas holds them soundly.
    pub open spec fn coherent(&self) -> bool {
        &&& owned(self.images(), self.rasters(), self.atlas().live())
        &&& sound(self.atlas().live(), self.atlas().layers())
    }

    /// The cache is well formed: its parts are, and it is coherent.
    pub open spec fn wf(&self) -> bool {
        &&& self.inv()
        &&& self.atlas().wf()
        &&& self.coherent()
    }

    /// What measuring the raster image of `handle` does: the image is
    /// looked at, and nothing else changes.
    pub open spec fn measures_image(&self, handle: raster::Handle, post: &Cache) -> bool {
        &&& post.images() == raster::loaded(self.images(), handle)
        &&& post.sources() == self.sources()
        &&& post.rasters() == self.rasters()
        &&& post.atlas() == self.atlas()
    }

    /// What measuring the vector image of `handle` does: the image is
    /// looked at, and nothing else changes.
    pub open spec fn measures_svg(&self, handle: vector::Handle, post: &Cache) -> bool {
        &&& post.sources() == vector::loaded(self.sources(), handle)
        &&& post.images() == self.images()
        &&& post.rasters() == self.rasters()
        &&& post.atlas() == self.atlas()
    }

    /// What asking for the raster image of `handle` to be in the atlas does
    /// to the cache and to the recorded copies. The vector images are left
    /// alone.
    pub open spec fn uploads_raster(
        &self,
        recorded: Seq<Transfer>,
        handle: raster::Handle,
        post: &Cache,
        recorded_after: Seq<Transfer>,
    ) -> bool {
        &&& raster::uploads(
            self.images(),
            self.atlas(),
            recorded,
            handle,
            post.images(),
            post.atlas(),
            recorded_after,
            raster::placement(post.images(), handle.id),
        )
        &&& post.sources() == self.sources()
        &&& post.rasters() == self.rasters()
    }

    /// What asking for the vector image of `handle`, filled with `color`
    /// and `size` pixels large, to be in the atlas does to the cache and to
    /// the recorded copies. The raster images are left alone.
    pub open spec fn uploads_vector(
        &self,
        recorded: Seq<Transfer>,
        handle: vector::Handle,
        color: Option<Color>,
        size: Size,
        post: &Cache,
        recorded_after: Seq<Transfer>,
    ) -> bool {
        &&& vector::uploads(
            self.sources(),
            self.rasters(),
            self.atlas(),
            recorded,
            handle,
            color,
            size,
            post.sources(),
            post.rasters(),
            post.atlas(),
            recorded_after,
            vector::placement(post.rasters(), vector::key_of(handle, color, size)),
        )
        &&& post.images() == self.images()
    }

    /// What looking up the placement of the raster image of `handle` does:
    /// the image is marked as used, and nothing else changes.
    pub open spec fn touches_raster(&self, handle: raster::Handle, post: &Cache) -> bool {
        &&& post.images() == marked(self.images(), handle.id)
        &&& post.sources() == self.sources()
        &&& post.rasters() == self.rasters()
        &&& post.atlas() == self.atlas()
    }

    /// What looking up the placement of the vector image of `handle`, as
    /// filled with `color` at `size`, does: that rasterization and the image
    /// are marked as used, and nothing else changes.
    pub open spec fn touches_vector(
        &self,
        handle: vector::Handle,
        color: Option<Color>,
        size: Size,
        post: &Cache,
    ) -> bool {
        &&& post.sources() == marked(self.sources(), handle.id)
        &&& post.rasters() == marked(self.rasters(), vector::key_of(handle, color, size))
        &&& post.images() == self.images()
        &&& post.atlas() == self.atlas()
    }

    /// What the sweep at the end of a cycle does: whatever is not marked as
    /// used is forgotten, and the rectangles of its placement are given back
    /// to the atlas; the marks of what stays are cleared. The atlas keeps
    /// its layers.
    pub open spec fn trims(&self, post: &Cache) -> bool {
        &&& post.images() == survivors(self.images())
        &&& post.sources() == survivors(self.sources())
        &&& post.rasters() == survivors(self.rasters())
        &&& post.atlas().live() == self.atlas().live().difference(
            raster::released(self.images()),
        ).difference(vector::released(self.rasters()))
        &&& post.atlas().layers() == self.atlas().layers()
        &&& post.atlas().limit() == self.atlas().limit()
        &&& post.atlas().layout() == self.atlas().layout()
    }

    /// A cache that holds nothing, for a device with the given limits and
    /// a texture bound through `layout`.
    pub fn new(device: &Device, backend: Backend, layout: Layout) -> (cache: Cache)
        ensures
            cache.wf(),
            cache.images() == Map::<u64, (Memory, bool)>::empty(),
            cache.sources() == Map::<u64, (Svg, bool)>::empty(),
            cache.rasters() == Map::<Key, (Entry, bool)>::empty(),
            cache.atlas().live() == Set::<Allocation>::empty(),
            cache.atlas().layers() == initial_layers(backend),
            cache.atlas().limit() == device.max_layers,
            cache.atlas().layout() == layout,
    {
        Cache {
            atlas: Atlas::new(device, backend, layout),
            raster: raster::Cache::new(),
            vector: vector::Cache::new(),
        }
    }

    /// The resource to bind for sampling, as the atlas stands now.
    pub fn bind_group(&self) -> (group: &BindGroup)
        ensures
            *group == (BindGroup {
                layout: self.atlas().layout(),
                layers: self.atlas().layers(),
            }),
    {
        self.atlas.bind_group()
    }

    /// The number of layers of the atlas, as it stands now.
    pub fn layer_count(&self) -> (count: usize)
        ensures
            count == self.atlas().layers(),
    {
        self.atlas.layer_count()
    }

    /// The layout that the atlas texture is bound through.
    pub fn texture_layout(&self) -> (layout: Layout)
        ensures
            layout == self.atlas().layout(),
    {
        self.atlas.bind_group_layout()
    }

    /// Whether the cache knows anything of a raster image. The host may
    /// drop the pixels of an image that the cache has forgotten.
    pub fn is_known_image(&self, handle: &raster::Handle) -> (known: bool)
        requires
            self.wf(),
        ensures
            known == self.images().contains_key(handle.id),
    {
        self.raster.contains(handle)
    }

    /// Whether the cache knows anything of a vector image.
    pub fn is_known_svg(&self, handle: &vector::Handle) -> (known: bool)
        requires
            self.wf(),
        ensures
            known == self.sources().contains_key(handle.id),
    {
        self.vector.contains(handle)
    }

    /// The size of a raster image. Looks at the image, and neither places
    /// it nor marks it as used.
    pub fn measure_image(&mut self, handle: &raster::Handle) -> (size: Size)
        requires
            old(self).wf(),
        ensures
            final(self).wf(),
            old(self).measures_image(*handle, final(self)),
            size == final(self).images()[handle.id].0.extent(),
    {
        let size = self.raster.load(handle).dimensions();
        proof {
            lemma_same_images(
                old(self).images(),
                self.images(),
                self.rasters(),
                self.atlas().live(),
            );
        }
        size
    }

    /// The viewport of a vector image. Looks at the image, and neither
    /// places it nor marks it as used.
    pub fn measure_svg(&mut self, handle: &vector::Handle) -> (size: Size)
        requires
            old(self).wf(),
        ensures
            final(self).wf(),
            old(self).measures_svg(*handle, final(self)),
            size == final(self).sources()[handle.id].0.extent(),
    {
        self.vector.load(handle).viewport_dimensions()
    }

    /// Makes sure that a raster image is in the atlas, and returns its
    /// placement. Copies are recorded only for a placement made by this
    /// call.
    pub fn upload_raster(&mut self, encoder: &mut Encoder, handle: &raster::Handle) -> (entry:
        Option<&Entry>)
        requires
            old(self).wf(),
        ensures
            final(self).wf(),
            old(self).uploads_raster(old(encoder)@, *handle, final(self), final(encoder)@),
            raster::placement(final(self).images(), handle.id) == match entry {
                Some(e) => Some(*e),
                None => None,
            },
    {
        let _ = self.raster.upload(encoder, handle, &mut self.atlas);
        proof {
            let images = old(self).images();
            let rasters = old(self).rasters();
            let known = raster::loaded(images, *handle);
            let id = handle.id;
            lemma_same_images(images, known, rasters, old(self).atlas().live());
            match known[id].0 {
                Memory::Host(size) => {
                    if old(self).atlas().has_room(size) {
                        let entry = raster::placement(self.images(), id)->0;
                        lemma_granted_raster(
                            known,
                            rasters,
                            old(self).atlas(),
                            size,
                            entry,
                            self.atlas(),
                            id,
                        );
                    } else {
                        lemma_same_images(known, self.images(), rasters, self.atlas().live());
                    }
                },
                _ => {
                    lemma_same_images(known, self.images(), rasters, self.atlas().live());
                },
            }
        }
        self.raster.peek(handle)
    }

    /// Makes sure that a raster image is in the atlas, and returns the
    /// region to sample it through; nothing if it could not be placed.
    pub fn ensure_raster_region(&mut self, encoder: &mut Encoder, handle: &raster::Handle) -> (region:
        Option<AtlasRegion>)
        requires
            old(self).wf(),
        ensures
            final(self).wf(),
            old(self).uploads_raster(old(encoder)@, *handle, final(self), final(encoder)@),
            region == resolved(raster::placement(final(self).images(), handle.id)),
            region matches Some(r) ==> r.layer < final(self).atlas().layers(),
    {
        let region = match self.upload_raster(encoder, handle) {
            Some(entry) => Some(Self::region_from_entry(entry)),
            None => None,
        };
        proof {
            if region is Some {
                self.region_layer_is_present(handle.id);
            }
        }
        region
    }

    /// The region to sample a raster image through, if the image is in the
    /// atlas. Marks the image as used this cycle; places nothing.
    pub fn cached_raster_region(&mut self, handle: &raster::Handle) -> (region: Option<AtlasRegion>)
        requires
            old(self).wf(),
        ensures
            final(self).wf(),
            old(self).touches_raster(*handle, final(self)),
            region == resolved(raster::placement(old(self).images(), handle.id)),
            region matches Some(r) ==> r.layer < final(self).atlas().layers(),
    {
        let region = match self.raster.atlas_entry(handle) {
            Some(entry) => Some(Self::region_from_entry(entry)),
            None => None,
        };
        proof {
            lemma_same_images(
                old(self).images(),
                self.images(),
                self.rasters(),
                self.atlas().live(),
            );
            if region is Some {
                old(self).region_layer_is_present(handle.id);
            }
        }
        region
    }

    /// Makes sure that a vector image, filled with `color` and `size`
    /// pixels large, is in the atlas, and returns its placement. Copies are
    /// recorded only for a placement made by this call.
    pub fn upload_vector(
        &mut self,
        encoder: &mut Encoder,
        handle: &vector::Handle,
        color: Option<Color>,
        size: Size,
    ) -> (entry: Option<&Entry>)
        requires
            old(self).wf(),
        ensures
            final(self).wf(),
            old(self).uploads_vector(
                old(encoder)@,
                *handle,
                color,
                size,
                final(self),
                final(encoder)@,
            ),
            vector::placement(final(self).rasters(), vector::key_of(*handle, color, size))
                == match entry {
                Some(e) => Some(*e),
                None => None,
            },
    {
        let _ = self.vector.upload(encoder, handle, color, size, &mut self.atlas);
        proof {
            let images = old(self).images();
            let rasters = old(self).rasters();
            let key = vector::key_of(*handle, color, size);
            if rasters.contains_key(key) {
                lemma_same_rasters(images, rasters, self.rasters(), self.atlas().live());
            } else {
                let known = vector::loaded(old(self).sources(), *handle);
                if known[handle.id].0 is Loaded && old(self).atlas().has_room(size) {
                    let entry = vector::placement(self.rasters(), key)->0;
                    lemma_granted_vector(
                        images,
                        rasters,
                        old(self).atlas(),
                        size,
                        entry,
                        self.atlas(),
                        key,
                    );
                }
            }
        }
        self.vector.peek(handle, color, size)
    }

    /// Makes sure that a vector image, filled with `color` and `size`
    /// pixels large, is in the atlas, and returns the region to sample it
    /// through; nothing if it could not be placed.
    pub fn ensure_vector_region(
        &mut self,
        encoder: &mut Encoder,
        handle: &vector::Handle,
        color: Option<Color>,
        size: Size,
    ) -> (region: Option<AtlasRegion>)
        requires
            old(self).wf(),
        ensures
            final(self).wf(),
            old(self).uploads_vector(
                old(encoder)@,
                *handle,
                color,
                size,
                final(self),
                final(encoder)@,
            ),
            region == resolved(
                vector::placement(final(self).rasters(), vector::key_of(*handle, color, size)),
            ),
            region matches Some(r) ==> r.layer < final(self).atlas().layers(),
    {
        let region = match self.upload_vector(encoder, handle, color, size) {
            Some(entry) => Some(Self::region_from_entry(entry)),
            None => None,
        };
        proof {
            if region is Some {
                self.vector_region_layer_is_present(vector::key_of(*handle, color, size));
            }
        }
        region
    }

    /// The region to sample a vector image through, as filled with `color`
    /// at `size`, if that rasterization is in the atlas. Marks it as used
    /// this cycle; places nothing.
    pub fn cached_vector_region(
        &mut self,
        handle: &vector::Handle,
        color: Option<Color>,
        size: Size,
    ) -> (region: Option<AtlasRegion>)
        requires
            old(self).wf(),
        ensures
            final(self).wf(),
            old(self).touches_vector(*handle, color, size, final(self)),
            region == resolved(
                vector::placement(old(self).rasters(), vector::key_of(*handle, color, size)),
            ),
            region matches Some(r) ==> r.layer < final(self).atlas().layers(),
    {
        let region = match self.vector.atlas_entry(handle, color, size) {
            Some(entry) => Some(Self::region_from_entry(entry)),
            None => None,
        };
        proof {
            lemma_same_rasters(
                old(self).images(),
                old(self).rasters(),
                self.rasters(),
                self.atlas().live(),
            );
            if region is Some {
                old(self).vector_region_layer_is_present(vector::key_of(*handle, color, size));
            }
        }
        region
    }

    /// The sweep at the end of a cycle: forgets what was not used since
    /// the sweep before, and gives its room in the atlas back.
    pub fn trim(&mut self)
        requires
            old(self).wf(),
        ensures
            final(self).wf(),
            old(self).trims(final(self)),
    {
        self.raster.trim(&mut self.atlas);
        proof {
            lemma_trimmed_raster(
                old(self).images(),
                old(self).rasters(),
                old(self).atlas().live(),
            );
        }
        self.vector.trim(&mut self.atlas);
        proof {
            lemma_trimmed_vector(
                survivors(old(self).images()),
                old(self).rasters(),
                old(self).atlas().live().difference(raster::released(old(self).images())),
            );
        }
    }

    /// Resolves a placement into the region it is sampled through.
    pub fn region_from_entry(entry: &Entry) -> (region: AtlasRegion)
        ensures
            region == AtlasRegion::of(entry),
            region.uv_min.0 <= region.uv_max.0,
            region.uv_min.1 <= region.uv_max.1,
    {
        match entry {
            Entry::Contiguous(allocation) => {
                let (x, y) = allocation.position();
                let size = allocation.size();
                AtlasRegion {
                    uv_min: (x as u64, y as u64),
                    uv_max: (x as u64 + size.width as u64, y as u64 + size.height as u64),
                    extent: SIZE,
                    layer: allocation.layer,
                }
            },
            Entry::Fragmented { size, fragments } => {
                if fragments.len() > 0 {
                    let first = &fragments[0];
                    let (x, y) = first.position;
                    AtlasRegion {
                        uv_min: (x as u64, y as u64),
                        uv_max: (x as u64 + size.width as u64, y as u64 + size.height as u64),
                        extent: SIZE,
                        layer: first.allocation.layer,
                    }
                } else {
                    AtlasRegion { uv_min: (0, 0), uv_max: (0, 0), extent: SIZE, layer: 0 }
                }
            },
        }
    }
}

} // verus!
