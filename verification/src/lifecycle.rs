//! What holds of the cache from one operation to the next.
//!
//! The statements here speak of the states before and after an operation,
//! related by the same predicates that the operations themselves promise.

use vstd::prelude::*;
use crate::atlas::{sound, Atlas};
use crate::cache::{
    lemma_granted_raster, lemma_granted_vector, lemma_region_layer, lemma_same_images,
    lemma_same_rasters, lemma_trimmed_raster, lemma_trimmed_vector, resolved, AtlasRegion, Cache,
};
use crate::encoder::{transfers, Source, Transfer};
use crate::entry::{Allocation, Entry, SIZE};
use crate::geometry::Size;
use crate::raster;
use crate::raster::Memory;
use crate::table::survivors;
use crate::vector;
use crate::vector::{Color, Key};

verus! {

/// The region of a rectangle that lies inside its layer has the corners of
/// the rectangle over the edge length of the layer, in the layer of the
/// rectangle, and lies inside the unit square.
pub proof fn contiguous_region_is_normalized(a: Allocation)
    requires
        a.right() <= SIZE,
        a.bottom() <= SIZE,
    ensures
        AtlasRegion::of(&Entry::Contiguous(a)) == (AtlasRegion {
            uv_min: (a.x as u64, a.y as u64),
            uv_max: ((a.x + a.width) as u64, (a.y + a.height) as u64),
            extent: SIZE,
            layer: a.layer,
        }),
        AtlasRegion::of(&Entry::Contiguous(a)).uv_min.0 <= AtlasRegion::of(
            &Entry::Contiguous(a),
        ).uv_max.0 <= SIZE,
        AtlasRegion::of(&Entry::Contiguous(a)).uv_min.1 <= AtlasRegion::of(
            &Entry::Contiguous(a),
        ).uv_max.1 <= SIZE,
{
}

/// The atlas stays sound when it grants a placement.
pub proof fn grant_keeps_sound(atlas: Atlas, size: Size, entry: Entry, after: Atlas)
    requires
        sound(atlas.live(), atlas.layers()),
        atlas.grants(size, &entry, &after),
    ensures
        sound(after.live(), after.layers()),
{
    let fresh = entry.allocations();
    assert forall|a: Allocation| entry.holdings().contains(a) implies crate::atlas::free_at(
        atlas.live(),
        a,
    ) && a.layer < after.layers() by {
        let i = choose|i: int| 0 <= i < fresh.len() && fresh[i] == a;
        assert(crate::atlas::free_at(atlas.live(), fresh[i]));
    }
    assert forall|a: Allocation, b: Allocation|
        entry.holdings().contains(a) && entry.holdings().contains(b) && a != b implies !a.overlaps(
        b,
    ) by {
        let i = choose|i: int| 0 <= i < fresh.len() && fresh[i] == a;
        let j = choose|j: int| 0 <= j < fresh.len() && fresh[j] == b;
        match entry {
            Entry::Contiguous(_) => {},
            Entry::Fragmented { fragments, .. } => {
                if i < j {
                    assert(fragments@[i].allocation.layer != fragments@[j].allocation.layer);
                } else {
                    assert(fragments@[j].allocation.layer != fragments@[i].allocation.layer);
                }
            },
        }
    }
    assert forall|a: Allocation, b: Allocation|
        #[trigger] after.live().contains(a) && #[trigger] after.live().contains(b) && a
            != b implies !a.overlaps(b) by {
        if entry.holdings().contains(a) && atlas.live().contains(b) {
            assert(!b.overlaps(a));
        }
    }
}

impl Cache {
    /// Every placement of a raster image that the cache remembers is
    /// sampled from a layer that the atlas has.
    pub proof fn region_layer_is_present(self, id: u64)
        requires
            self.coherent(),
            raster::placement(self.images(), id) is Some,
        ensures
            resolved(raster::placement(self.images(), id))->0.layer < self.atlas().layers(),
    {
        let entry = raster::placement(self.images(), id)->0;
        assert forall|a: Allocation| entry.holdings().contains(a) implies self.atlas().live().contains(
            a,
        ) by {
            assert(raster::claims(self.images(), id, a));
        }
        lemma_region_layer(entry, self.atlas().live(), self.atlas().layers());
    }

    /// Every placement of a vector image that the cache remembers is
    /// sampled from a layer that the atlas has.
    pub proof fn vector_region_layer_is_present(self, key: Key)
        requires
            self.coherent(),
            vector::placement(self.rasters(), key) is Some,
        ensures
            resolved(vector::placement(self.rasters(), key))->0.layer < self.atlas().layers(),
    {
        let entry = vector::placement(self.rasters(), key)->0;
        assert forall|a: Allocation| entry.holdings().contains(a) implies self.atlas().live().contains(
            a,
        ) by {
            assert(vector::claims(self.rasters(), key, a));
        }
        lemma_region_layer(entry, self.atlas().live(), self.atlas().layers());
    }

    /// Asking for a raster image to be in the atlas keeps the cache
    /// coherent.
    pub proof fn upload_raster_keeps_coherent(
        self,
        recorded: Seq<Transfer>,
        handle: raster::Handle,
        post: Cache,
        recorded_after: Seq<Transfer>,
    )
        requires
            self.coherent(),
            self.uploads_raster(recorded, handle, &post, recorded_after),
        ensures
            post.coherent(),
    {
        let images = self.images();
        let rasters = self.rasters();
        let known = raster::loaded(images, handle);
        let id = handle.id;
        lemma_same_images(images, known, rasters, self.atlas().live());
        if let Memory::Host(size) = known[id].0 {
            if self.atlas().has_room(size) {
                let entry = raster::placement(post.images(), id)->0;
                lemma_granted_raster(known, rasters, self.atlas(), size, entry, post.atlas(), id);
                grant_keeps_sound(self.atlas(), size, entry, post.atlas());
            } else {
                lemma_same_images(known, post.images(), rasters, post.atlas().live());
            }
        } else {
            lemma_same_images(known, post.images(), rasters, post.atlas().live());
        }
    }

    /// Asking for a vector image to be in the atlas keeps the cache
    /// coherent.
    pub proof fn upload_vector_keeps_coherent(
        self,
        recorded: Seq<Transfer>,
        handle: vector::Handle,
        color: Option<Color>,
        size: Size,
        post: Cache,
        recorded_after: Seq<Transfer>,
    )
        requires
            self.coherent(),
            self.uploads_vector(recorded, handle, color, size, &post, recorded_after),
        ensures
            post.coherent(),
    {
        let images = self.images();
        let rasters = self.rasters();
        let key = vector::key_of(handle, color, size);
        if rasters.contains_key(key) {
            lemma_same_rasters(images, rasters, post.rasters(), post.atlas().live());
        } else {
            let known = vector::loaded(self.sources(), handle);
            if known[handle.id].0 is Loaded && self.atlas().has_room(size) {
                let entry = vector::placement(post.rasters(), key)->0;
                lemma_granted_vector(images, rasters, self.atlas(), size, entry, post.atlas(), key);
                grant_keeps_sound(self.atlas(), size, entry, post.atlas());
            }
        }
    }

    /// Measuring a raster image keeps the cache coherent.
    pub proof fn measure_image_keeps_coherent(self, handle: raster::Handle, post: Cache)
        requires
            self.coherent(),
            self.measures_image(handle, &post),
        ensures
            post.coherent(),
    {
        lemma_same_images(self.images(), post.images(), self.rasters(), self.atlas().live());
    }

    /// Measuring a vector image keeps the cache coherent.
    pub proof fn measure_svg_keeps_coherent(self, handle: vector::Handle, post: Cache)
        requires
            self.coherent(),
            self.measures_svg(handle, &post),
        ensures
            post.coherent(),
    {
    }

    /// Looking up a raster image keeps the cache coherent.
    pub proof fn touch_raster_keeps_coherent(self, handle: raster::Handle, post: Cache)
        requires
            self.coherent(),
            self.touches_raster(handle, &post),
        ensures
            post.coherent(),
    {
        lemma_same_images(self.images(), post.images(), self.rasters(), self.atlas().live());
    }

    /// Looking up a vector image keeps the cache coherent.
    pub proof fn touch_vector_keeps_coherent(
        self,
        handle: vector::Handle,
        color: Option<Color>,
        size: Size,
        post: Cache,
    )
        requires
            self.coherent(),
            self.touches_vector(handle, color, size, &post),
        ensures
            post.coherent(),
    {
        lemma_same_rasters(self.images(), self.rasters(), post.rasters(), self.atlas().live());
    }

    /// The sweep keeps the cache coherent.
    pub proof fn trim_keeps_coherent(self, post: Cache)
        requires
            self.coherent(),
            self.trims(&post),
        ensures
            post.coherent(),
    {
        lemma_trimmed_raster(self.images(), self.rasters(), self.atlas().live());
        lemma_trimmed_vector(
            survivors(self.images()),
            self.rasters(),
            self.atlas().live().difference(raster::released(self.images())),
        );
    }

    /// Asking twice for the same raster image, with no sweep in between,
    /// gives the same placement and hence the same region both times; the
    /// second request records no copy and leaves the atlas as it was.
    pub proof fn ensure_raster_is_idempotent(
        self,
        recorded: Seq<Transfer>,
        handle: raster::Handle,
        once: Cache,
        recorded_once: Seq<Transfer>,
        twice: Cache,
        recorded_twice: Seq<Transfer>,
    )
        requires
            self.uploads_raster(recorded, handle, &once, recorded_once),
            once.uploads_raster(recorded_once, handle, &twice, recorded_twice),
        ensures
            raster::placement(twice.images(), handle.id) == raster::placement(
                once.images(),
                handle.id,
            ),
            resolved(raster::placement(twice.images(), handle.id)) == resolved(
                raster::placement(once.images(), handle.id),
            ),
            recorded_twice == recorded_once,
            once.atlas().unchanged(&twice.atlas()),
            twice.images() == once.images(),
    {
        let known = raster::loaded(self.images(), handle);
        assert(once.images().contains_key(handle.id));
        assert(raster::loaded(once.images(), handle) == once.images());
        if let Memory::Host(size) = known[handle.id].0 {
            if !self.atlas().has_room(size) {
                self.atlas().unchanged_has_same_room(&once.atlas(), size);
            }
        }
        assert(twice.images() =~= once.images());
    }

    /// Asking twice for the same rasterization of a vector image, with no
    /// sweep in between, gives the same placement and hence the same region
    /// both times; the second request records no copy and leaves the atlas
    /// as it was.
    pub proof fn ensure_vector_is_idempotent(
        self,
        recorded: Seq<Transfer>,
        handle: vector::Handle,
        color: Option<Color>,
        size: Size,
        once: Cache,
        recorded_once: Seq<Transfer>,
        twice: Cache,
        recorded_twice: Seq<Transfer>,
    )
        requires
            self.uploads_vector(recorded, handle, color, size, &once, recorded_once),
            once.uploads_vector(recorded_once, handle, color, size, &twice, recorded_twice),
        ensures
            vector::placement(twice.rasters(), vector::key_of(handle, color, size))
                == vector::placement(once.rasters(), vector::key_of(handle, color, size)),
            recorded_twice == recorded_once,
            once.atlas().unchanged(&twice.atlas()),
    {
        let key = vector::key_of(handle, color, size);
        let known = vector::loaded(self.sources(), handle);
        if !self.rasters().contains_key(key) {
            assert(once.sources().contains_key(handle.id));
            assert(vector::loaded(once.sources(), handle) == once.sources());
            if !(known[handle.id].0 is Loaded && self.atlas().has_room(size)) {
                self.atlas().unchanged_has_same_room(&once.atlas(), size);
            }
        }
    }

    /// Whatever is asked for or looked up is marked as used.
    pub proof fn use_marks_raster(
        self,
        recorded: Seq<Transfer>,
        handle: raster::Handle,
        post: Cache,
        recorded_after: Seq<Transfer>,
    )
        requires
            self.uploads_raster(recorded, handle, &post, recorded_after) || (self.touches_raster(
                handle,
                &post,
            ) && self.images().contains_key(handle.id)),
        ensures
            post.images().contains_key(handle.id),
            post.images()[handle.id].1,
    {
    }

    /// A raster image that is placed and marked as used survives the sweep:
    /// it keeps its placement, the rectangles of the placement stay in use,
    /// and its mark is cleared for the next cycle.
    pub proof fn used_raster_survives_trim(self, id: u64, post: Cache)
        requires
            self.coherent(),
            raster::placement(self.images(), id) is Some,
            self.images()[id].1,
            self.trims(&post),
        ensures
            raster::placement(post.images(), id) == raster::placement(self.images(), id),
            !post.images()[id].1,
            forall|a: Allocation|
                raster::claims(self.images(), id, a) ==> post.atlas().live().contains(a),
    {
        self.trim_keeps_coherent(post);
        assert forall|a: Allocation| raster::claims(self.images(), id, a) implies post.atlas().live().contains(
            a,
        ) by {
            assert(raster::claims(post.images(), id, a));
        }
    }

    /// A raster image that was not used since the sweep before is forgotten
    /// by the sweep: it has no placement afterwards, a lookup finds no
    /// region, and the rectangles it held are no longer in use.
    pub proof fn unused_raster_is_evicted(self, id: u64, post: Cache)
        requires
            self.images().contains_key(id),
            !self.images()[id].1,
            self.trims(&post),
        ensures
            !post.images().contains_key(id),
            resolved(raster::placement(post.images(), id)) is None,
            forall|a: Allocation|
                raster::claims(self.images(), id, a) ==> !post.atlas().live().contains(a),
    {
        assert forall|a: Allocation| raster::claims(self.images(), id, a) implies !post.atlas().live().contains(
            a,
        ) by {
            assert(raster::released(self.images()).contains(a));
        }
    }

    /// A rasterization of a vector image that is marked as used survives
    /// the sweep, and one that is not is forgotten and its rectangles are
    /// no longer in use: each rasterization lives and dies by its own mark.
    pub proof fn vector_keys_live_by_their_own_mark(self, key: Key, post: Cache)
        requires
            self.coherent(),
            self.rasters().contains_key(key),
            self.trims(&post),
        ensures
            self.rasters()[key].1 ==> vector::placement(post.rasters(), key) == vector::placement(
                self.rasters(),
                key,
            ) && forall|a: Allocation|
                vector::claims(self.rasters(), key, a) ==> post.atlas().live().contains(a),
            !self.rasters()[key].1 ==> !post.rasters().contains_key(key) && forall|a: Allocation|
                vector::claims(self.rasters(), key, a) ==> !post.atlas().live().contains(a),
    {
        self.trim_keeps_coherent(post);
        if self.rasters()[key].1 {
            assert forall|a: Allocation| vector::claims(self.rasters(), key, a) implies post.atlas().live().contains(
                a,
            ) by {
                assert(vector::claims(post.rasters(), key, a));
            }
        } else {
            assert forall|a: Allocation| vector::claims(self.rasters(), key, a) implies !post.atlas().live().contains(
                a,
            ) by {
                assert(vector::released(self.rasters()).contains(a));
            }
        }
    }

    /// Asking for one rasterization of a vector image leaves every other
    /// rasterization as it was, those of the same image at another size or
    /// in another color too: its placement, its mark, and the rectangles it
    /// holds, none of which the new placement shares.
    pub proof fn vector_keys_are_independent(
        self,
        recorded: Seq<Transfer>,
        handle: vector::Handle,
        color: Option<Color>,
        size: Size,
        post: Cache,
        recorded_after: Seq<Transfer>,
        other: Key,
    )
        requires
            self.coherent(),
            self.uploads_vector(recorded, handle, color, size, &post, recorded_after),
            other != vector::key_of(handle, color, size),
        ensures
            post.rasters().contains_key(other) == self.rasters().contains_key(other),
            post.rasters().contains_key(other) ==> post.rasters()[other] == self.rasters()[other],
            forall|a: Allocation|
                !(vector::claims(post.rasters(), other, a) && vector::claims(
                    post.rasters(),
                    vector::key_of(handle, color, size),
                    a,
                )),
    {
        self.upload_vector_keeps_coherent(recorded, handle, color, size, post, recorded_after);
    }

    /// Asking for or looking up one raster image leaves every other raster
    /// image as it was.
    pub proof fn raster_images_are_independent(
        self,
        recorded: Seq<Transfer>,
        handle: raster::Handle,
        post: Cache,
        recorded_after: Seq<Transfer>,
        other: u64,
    )
        requires
            self.uploads_raster(recorded, handle, &post, recorded_after) || self.touches_raster(
                handle,
                &post,
            ) || self.measures_image(handle, &post),
            other != handle.id,
        ensures
            post.images().contains_key(other) == self.images().contains_key(other),
            post.images().contains_key(other) ==> post.images()[other] == self.images()[other],
    {
    }

    /// The sweep clears every mark: what it leaves counts as not used until
    /// it is asked for or looked up again.
    pub proof fn trim_clears_marks(self, post: Cache)
        requires
            self.trims(&post),
        ensures
            forall|id: u64| #[trigger] post.images().contains_key(id) ==> !post.images()[id].1,
            forall|id: u64| #[trigger] post.sources().contains_key(id) ==> !post.sources()[id].1,
            forall|key: Key| #[trigger] post.rasters().contains_key(key) ==> !post.rasters()[key].1,
    {
    }

    /// An image that is placed in one cycle and only looked up in the next
    /// survives the sweep that ends that cycle, beside an image that was
    /// placed in it: after the sweep both have the placement they had, and
    /// a lookup finds a region for each.
    pub proof fn lookup_keeps_across_cycles(
        self,
        recorded: Seq<Transfer>,
        first: raster::Handle,
        placed: Cache,
        recorded_first: Seq<Transfer>,
        swept: Cache,
        looked: Cache,
        second: raster::Handle,
        both: Cache,
        recorded_second: Seq<Transfer>,
        last: Cache,
    )
        requires
            self.coherent(),
            self.uploads_raster(recorded, first, &placed, recorded_first),
            raster::placement(placed.images(), first.id) is Some,
            placed.trims(&swept),
            swept.touches_raster(first, &looked),
            looked.uploads_raster(recorded_first, second, &both, recorded_second),
            raster::placement(both.images(), second.id) is Some,
            both.trims(&last),
        ensures
            raster::placement(last.images(), first.id) == raster::placement(
                placed.images(),
                first.id,
            ),
            raster::placement(last.images(), second.id) == raster::placement(
                both.images(),
                second.id,
            ),
            resolved(raster::placement(last.images(), first.id)) is Some,
            resolved(raster::placement(last.images(), second.id)) is Some,
    {
        self.upload_raster_keeps_coherent(recorded, first, placed, recorded_first);
        placed.used_raster_survives_trim(first.id, swept);
        placed.trim_keeps_coherent(swept);
        swept.touch_raster_keeps_coherent(first, looked);
        looked.upload_raster_keeps_coherent(recorded_first, second, both, recorded_second);
        if first.id != second.id {
            looked.raster_images_are_independent(
                recorded_first,
                second,
                both,
                recorded_second,
                first.id,
            );
        }
        both.used_raster_survives_trim(first.id, last);
        both.used_raster_survives_trim(second.id, last);
    }

    /// An image that is placed in one cycle and neither asked for nor
    /// looked up in the next is forgotten by the sweep that ends that cycle:
    /// whatever else the cycle did, if it left the image as the sweep before
    /// had left it, the image has no placement afterwards, a lookup finds no
    /// region, and the rectangles it held are no longer in use.
    pub proof fn neglect_evicts(
        self,
        recorded: Seq<Transfer>,
        handle: raster::Handle,
        placed: Cache,
        recorded_after: Seq<Transfer>,
        swept: Cache,
        neglected: Cache,
        last: Cache,
    )
        requires
            self.coherent(),
            self.uploads_raster(recorded, handle, &placed, recorded_after),
            raster::placement(placed.images(), handle.id) is Some,
            placed.trims(&swept),
            neglected.images().contains_key(handle.id),
            neglected.images()[handle.id] == swept.images()[handle.id],
            neglected.trims(&last),
        ensures
            raster::placement(swept.images(), handle.id) == raster::placement(
                placed.images(),
                handle.id,
            ),
            !last.images().contains_key(handle.id),
            resolved(raster::placement(last.images(), handle.id)) is None,
            forall|a: Allocation|
                raster::claims(placed.images(), handle.id, a) ==> !last.atlas().live().contains(a),
    {
        self.upload_raster_keeps_coherent(recorded, handle, placed, recorded_after);
        placed.used_raster_survives_trim(handle.id, swept);
        neglected.unused_raster_is_evicted(handle.id, last);
        assert forall|a: Allocation|
            raster::claims(placed.images(), handle.id, a) implies !last.atlas().live().contains(
            a,
        ) by {
            assert(raster::claims(neglected.images(), handle.id, a));
        }
    }

    /// An image that the sweep forgot is placed anew when it is asked for
    /// again: where it can be decoded and the atlas has room, the atlas
    /// grants a placement and the copies for it are recorded.
    pub proof fn evicted_raster_is_placed_anew(
        self,
        recorded: Seq<Transfer>,
        handle: raster::Handle,
        size: Size,
        post: Cache,
        recorded_after: Seq<Transfer>,
    )
        requires
            !self.images().contains_key(handle.id),
            handle.image == Some(size),
            self.atlas().has_room(size),
            self.uploads_raster(recorded, handle, &post, recorded_after),
        ensures
            raster::placement(post.images(), handle.id) matches Some(entry) && self.atlas().grants(
                size,
                &entry,
                &post.atlas(),
            ) && recorded_after == recorded + transfers(Source::Raster(handle.id), &entry),
    {
    }
}

} // verus!
