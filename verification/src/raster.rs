//! The sub-cache of raster images.
//!
//! For each image it has seen, it remembers what decoding gave and, once the
//! image has been placed, where in the atlas it lives.

use vstd::prelude::*;
use crate::atlas::Atlas;
use crate::encoder::{transfers, Encoder, Source, Transfer};
use crate::entry::{Allocation, Entry};
use crate::geometry::Size;
use crate::table::{marked, survivors, Table};

verus! {

/// Names a raster image and carries what the host's decoder found for it.
#[derive(Clone, Copy, Debug, PartialEq, Eq)]
pub struct Handle {
    /// The identity of the image: two handles with one id name one image.
    pub id: u64,
    /// The size of the decoded image, or nothing if it cannot be decoded.
    pub image: Option<Size>,
}

/// What the cache knows of one image.
#[derive(Debug, PartialEq, Eq)]
pub enum Memory {
    /// Decoded, of this size, and not placed in the atlas.
    Host(Size),
    /// Placed in the atlas.
    Device(Entry),
    /// Could not be decoded.
    NotFound,
}

impl Memory {
    /// The size of the image; one pixel for an image that could not be
    /// decoded.
    pub open spec fn extent(&self) -> Size {
        match *self {
            Memory::Host(size) => size,
            Memory::Device(entry) => entry.extent(),
            Memory::NotFound => Size { width: 1, height: 1 },
        }
    }

    /// The size of the image; one pixel for an image that could not be
    /// decoded.
    pub fn dimensions(&self) -> (size: Size)
        ensures
            size == self.extent(),
    {
        match self {
            Memory::Host(size) => *size,
            Memory::Device(entry) => entry.size(),
            Memory::NotFound => Size { width: 1, height: 1 },
        }
    }
}

/// What is first remembered of an image: what its handle carries.
pub open spec fn decoded(handle: Handle) -> Memory {
    match handle.image {
        Some(size) => Memory::Host(size),
        None => Memory::NotFound,
    }
}

/// The images after `handle` has been looked at: what was known of it stays;
/// if nothing was, what the handle carries is remembered, not marked as used.
pub open spec fn loaded(images: Map<u64, (Memory, bool)>, handle: Handle) -> Map<
    u64,
    (Memory, bool),
> {
    if images.contains_key(handle.id) {
        images
    } else {
        images.insert(handle.id, (decoded(handle), false))
    }
}

/// Where the image `id` lives in the atlas, if it has been placed.
pub open spec fn placement(images: Map<u64, (Memory, bool)>, id: u64) -> Option<Entry> {
    if images.contains_key(id) {
        match images[id].0 {
            Memory::Device(entry) => Some(entry),
            _ => None,
        }
    } else {
        None
    }
}

/// The rectangle `a` belongs to the placement of the image `id`.
pub open spec fn claims(images: Map<u64, (Memory, bool)>, id: u64, a: Allocation) -> bool {
    match placement(images, id) {
        Some(entry) => entry.holdings().contains(a),
        None => false,
    }
}

/// The rectangles that a sweep gives back to the atlas: those of the placed
/// images that are not marked as used.
pub open spec fn released(images: Map<u64, (Memory, bool)>) -> Set<Allocation> {
    Set::new(|a: Allocation| exists|id: u64| #[trigger] claims(images, id, a) && !images[id].1)
}

/// What asking for the image of `handle` to be in the atlas does.
///
/// The image is looked at and marked as used. If it is placed, its placement
/// is the result and nothing else changes. If it is decoded and the atlas has
/// room for its size, the atlas grants a placement, which is remembered and
/// is the result, and the copies for it are recorded. Otherwise there is no
/// result, and neither the atlas nor the recorded copies change.
pub open spec fn uploads(
    images: Map<u64, (Memory, bool)>,
    atlas: Atlas,
    recorded: Seq<Transfer>,
    handle: Handle,
    images_after: Map<u64, (Memory, bool)>,
    atlas_after: Atlas,
    recorded_after: Seq<Transfer>,
    result: Option<Entry>,
) -> bool {
    let known = loaded(images, handle);
    let id = handle.id;
    match known[id].0 {
        Memory::Device(entry) => {
            &&& result == Some(entry)
            &&& images_after == marked(known, id)
            &&& atlas.unchanged(&atlas_after)
            &&& recorded_after == recorded
        },
        Memory::Host(size) => if atlas.has_room(size) {
            &&& result matches Some(entry)
            &&& atlas.grants(size, &entry, &atlas_after)
            &&& images_after == known.insert(id, (Memory::Device(entry), true))
            &&& recorded_after == recorded + transfers(Source::Raster(id), &entry)
        } else {
            &&& result is None
            &&& images_after == marked(known, id)
            &&& atlas.unchanged(&atlas_after)
            &&& recorded_after == recorded
        },
        Memory::NotFound => {
            &&& result is None
            &&& images_after == marked(known, id)
            &&& atlas.unchanged(&atlas_after)
            &&& recorded_after == recorded
        },
    }
}

/// The sub-cache of raster images.
pub struct Cache {
    table: Table<u64, Memory>,
}

impl Cache {
    /// What is known of each image, and whether it was used since the last
    /// sweep.
    pub closed spec fn view(&self) -> Map<u64, (Memory, bool)> {
        self.table@
    }

    /// The representation is well formed.
    pub closed spec fn wf(&self) -> bool {
        self.table.wf()
    }

    /// A cache that knows no image.
    pub fn new() -> (cache: Cache)
        ensures
            cache.wf(),
            cache@ == Map::<u64, (Memory, bool)>::empty(),
    {
        Cache { table: Table::new() }
    }

    /// Whether anything is known of the image.
    pub fn contains(&self, handle: &Handle) -> (known: bool)
        requires
            self.wf(),
        ensures
            known == self@.contains_key(handle.id),
    {
        self.table.contains(&handle.id)
    }

    /// Looks at an image: remembers what its handle carries unless the image
    /// is known already, and returns what is known of it.
    pub fn load(&mut self, handle: &Handle) -> (memory: &Memory)
        requires
            old(self).wf(),
        ensures
            final(self).wf(),
            final(self)@ == loaded(old(self)@, *handle),
            final(self)@.contains_key(handle.id),
            *memory == final(self)@[handle.id].0,
    {
        if !self.table.contains(&handle.id) {
            let memory = match handle.image {
                Some(size) => Memory::Host(size),
                None => Memory::NotFound,
            };
            self.table.insert(handle.id, memory, false);
        }
        self.table.get(&handle.id).unwrap()
    }

    /// Makes sure that the image is in the atlas, and returns its placement.
    pub fn upload(&mut self, encoder: &mut Encoder, handle: &Handle, atlas: &mut Atlas) -> (entry:
        Option<&Entry>)
        requires
            old(self).wf(),
            old(atlas).wf(),
        ensures
            final(self).wf(),
            final(atlas).wf(),
            uploads(
                old(self)@,
                *old(atlas),
                old(encoder)@,
                *handle,
                final(self)@,
                *final(atlas),
                final(encoder)@,
                match entry {
                    Some(e) => Some(*e),
                    None => None,
                },
            ),
    {
        let pending: Option<Size> = match self.load(handle) {
            Memory::Host(size) => Some(*size),
            _ => None,
        };
        match pending {
            Some(size) => {
                match atlas.allocate(size) {
                    Some(entry) => {
                        encoder.record(Source::Raster(handle.id), &entry);
                        self.table.insert(handle.id, Memory::Device(entry), true);
                    },
                    None => {
                        self.table.touch(&handle.id);
                    },
                }
            },
            None => {
                self.table.touch(&handle.id);
            },
        }
        match self.table.get(&handle.id) {
            Some(Memory::Device(entry)) => Some(entry),
            _ => None,
        }
    }

    /// The placement of the image, if it has one. Leaves no mark.
    pub(crate) fn peek(&self, handle: &Handle) -> (entry: Option<&Entry>)
        requires
            self.wf(),
        ensures
            placement(self@, handle.id) == match entry {
                Some(e) => Some(*e),
                None => None,
            },
    {
        match self.table.get(&handle.id) {
            Some(Memory::Device(entry)) => Some(entry),
            _ => None,
        }
    }

    /// The placement of the image, if it has one. Marks the image as used.
    pub fn atlas_entry(&mut self, handle: &Handle) -> (entry: Option<&Entry>)
        requires
            old(self).wf(),
        ensures
            final(self).wf(),
            final(self)@ == marked(old(self)@, handle.id),
            placement(old(self)@, handle.id) == match entry {
                Some(e) => Some(*e),
                None => None,
            },
    {
        self.table.touch(&handle.id);
        match self.table.get(&handle.id) {
            Some(Memory::Device(entry)) => Some(entry),
            _ => None,
        }
    }

    /// Sweeps the cache: forgets every image that was not used since the
    /// last sweep and gives its placement back to the atlas.
    pub fn trim(&mut self, atlas: &mut Atlas)
        requires
            old(self).wf(),
            old(atlas).wf(),
        ensures
            final(self).wf(),
            final(atlas).wf(),
            final(self)@ == survivors(old(self)@),
            final(atlas).live() == old(atlas).live().difference(released(old(self)@)),
            final(atlas).layers() == old(atlas).layers(),
            final(atlas).limit() == old(atlas).limit(),
            final(atlas).layout() == old(atlas).layout(),
    {
        let evicted = self.table.retain_touched();
        let mut k: usize = 0;
        while k < evicted.len()
            invariant
                atlas.wf(),
                k <= evicted.len(),
                atlas.layers() == old(atlas).layers(),
                atlas.limit() == old(atlas).limit(),
                atlas.layout() == old(atlas).layout(),
                forall|a: Allocation|
                    atlas.live().contains(a) <==> old(atlas).live().contains(a) && forall|j: int|
                        0 <= j < k ==> !holds((#[trigger] evicted@[j]).1, a),
            decreases evicted.len() - k,
        {
            match &evicted[k].1 {
                Memory::Device(entry) => {
                    atlas.free(entry);
                },
                _ => {},
            }
            k += 1;
        }
        proof {
            let images = old(self)@;
            assert forall|a: Allocation|
                atlas.live().contains(a) == old(atlas).live().difference(
                    released(images),
                ).contains(a) by {
                if released(images).contains(a) {
                    let id = choose|id: u64| #[trigger] claims(images, id, a) && !images[id].1;
                    assert(images.contains_key(id));
                    let j = choose|j: int| 0 <= j < evicted@.len() && (#[trigger] evicted@[j]).0 == id;
                    assert(holds(evicted@[j].1, a));
                }
                if old(atlas).live().contains(a) && !atlas.live().contains(a) {
                    let j = choose|j: int| 0 <= j < k && holds((#[trigger] evicted@[j]).1, a);
                    assert(claims(images, evicted@[j].0, a));
                }
            }
            assert(atlas.live() =~= old(atlas).live().difference(released(images)));
        }
    }
}

/// The rectangle `a` belongs to the placement that `memory` holds.
pub open spec fn holds(memory: Memory, a: Allocation) -> bool {
    match memory {
        Memory::Device(entry) => entry.holdings().contains(a),
        _ => false,
    }
}

} // verus!
