//! The sub-cache of vector images.

//!
//! A vector image is rasterized for the size and the color it is drawn
//! with, so each such rasterization is an entry of its own, with a placement
//! and a lifetime of its own.

use vstd::prelude::*;
use crate::atlas::Atlas;
use crate::encoder::{transfers, Encoder, Source, Transfer};
use crate::entry::{Allocation, Entry};
use crate::geometry::Size;
use crate::table::{marked, survivors, Table};
use crate::table::Key as TableKey;

verus! {

/// A fill color, eight bits per channel.
#[derive(Clone, Copy, Debug, PartialEq, Eq)]
pub struct Color {
    pub r: u8,
    pub g: u8,
    pub b: u8,
    pub a: u8,
}

/// What one rasterization of a vector image is stored under: the image, the
/// size in pixels it was rasterized at, and the color it was filled with.
#[derive(Clone, Copy, Debug, PartialEq, Eq)]
pub struct Key {
    pub id: u64,
    pub width: u32,
    pub height: u32,
    pub color: Option<Color>,
}

impl TableKey for Key {
    fn same(&self, other: &Key) -> (equal: bool) {
        let colors = match (self.color, other.color) {
            (Some(mine), Some(theirs)) => mine.r == theirs.r && mine.g == theirs.g && mine.b
                == theirs.b && mine.a == theirs.a,
            (None, None) => true,
            _ => false,
        };
        self.id == other.id && self.width == other.width && self.height == other.height && colors
    }
}

/// Names a vector image and carries what the host's parser found for it.
#[derive(Clone, Copy, Debug, PartialEq, Eq)]
pub struct Handle {
    /// The identity of the image: two handles with one id name one image.
    pub id: u64,
    /// The viewport of the parsed image, or nothing if it cannot be parsed.
    pub viewport: Option<Size>,
}

/// What the cache knows of one vector image.
#[derive(Clone, Copy, Debug, PartialEq, Eq)]
pub enum Svg {
    /// Parsed, with this viewport.
    Loaded(Size),
    /// Could not be parsed.
    NotFound,
}

impl Svg {
    /// The viewport of the image; one pixel for an image that could not be
    /// parsed.
    pub open spec fn extent(&self) -> Size {
        match *self {
            Svg::Loaded(viewport) => viewport,
            Svg::NotFound => Size { width: 1, height: 1 },
        }
    }

    /// The viewport of the image; one pixel for an image that could not be
    /// parsed.
    pub fn viewport_dimensions(&self) -> (size: Size)
        ensures
            size == self.extent(),
    {
        match self {
            Svg::Loaded(viewport) => *viewport,
            Svg::NotFound => Size { width: 1, height: 1 },
        }
    }
}

/// What is first remembered of an image: what its handle carries.
pub open spec fn parsed(handle: Handle) -> Svg {
    match handle.viewport {
        Some(viewport) => Svg::Loaded(viewport),
        None => Svg::NotFound,
    }
}

/// The images after `handle` has been looked at: what was known of it stays;
/// if nothing was, what the handle carries is remembered, not marked as used.
pub open spec fn loaded(sources: Map<u64, (Svg, bool)>, handle: Handle) -> Map<u64, (Svg, bool)> {
    if sources.contains_key(handle.id) {
        sources
    } else {
        sources.insert(handle.id, (parsed(handle), false))
    }
}

/// The key of the image of `handle`, filled with `color`, at `size`.
pub open spec fn key_of(handle: Handle, color: Option<Color>, size: Size) -> Key {
    Key { id: handle.id, width: size.width, height: size.height, color }
}

/// Where the rasterization `key` lives in the atlas, if there is one.
pub open spec fn placement(rasters: Map<Key, (Entry, bool)>, key: Key) -> Option<Entry> {
    if rasters.contains_key(key) {
        Some(rasters[key].0)
    } else {
        None
    }
}

/// The rectangle `a` belongs to the placement of the rasterization `key`.
pub open spec fn claims(rasters: Map<Key, (Entry, bool)>, key: Key, a: Allocation) -> bool {
    rasters.contains_key(key) && rasters[key].0.holdings().contains(a)
}

/// The rectangles that a sweep gives back to the atlas: those of the
/// rasterizations that are not marked as used.
pub open spec fn released(rasters: Map<Key, (Entry, bool)>) -> Set<Allocation> {
    Set::new(|a: Allocation| exists|key: Key| #[trigger] claims(rasters, key, a) && !rasters[key].1)
}

/// What asking for the image of `handle`, filled with `color` and `size`
/// pixels large, to be in the atlas does.
///
/// If that rasterization has a placement, it is the result; the
/// rasterization and the image are marked as used and nothing else changes.
/// Otherwise the image is looked at and marked as used. If it is parsed and
/// the atlas has room for `size`, the atlas grants a placement, which is
/// remembered under the key, marked as used, and is the result; the copies
/// for it are recorded. Otherwise there is no result, and neither the
/// rasterizations, the atlas nor the recorded copies change.
pub open spec fn uploads(
    sources: Map<u64, (Svg, bool)>,
    rasters: Map<Key, (Entry, bool)>,
    atlas: Atlas,
    recorded: Seq<Transfer>,
    handle: Handle,
    color: Option<Color>,
    size: Size,
    sources_after: Map<u64, (Svg, bool)>,
    rasters_after: Map<Key, (Entry, bool)>,
    atlas_after: Atlas,
    recorded_after: Seq<Transfer>,
    result: Option<Entry>,
) -> bool {
    let key = key_of(handle, color, size);
    if rasters.contains_key(key) {
        &&& result == Some(rasters[key].0)
        &&& sources_after == marked(sources, handle.id)
        &&& rasters_after == marked(rasters, key)
        &&& atlas.unchanged(&atlas_after)
        &&& recorded_after == recorded
    } else {
        let known = loaded(sources, handle);
        &&& sources_after == marked(known, handle.id)
        &&& if known[handle.id].0 is Loaded && atlas.has_room(size) {
            &&& result matches Some(entry)
            &&& atlas.grants(size, &entry, &atlas_after)
            &&& rasters_after == rasters.insert(key, (entry, true))
            &&& recorded_after == recorded + transfers(Source::Vector(key), &entry)
        } else {
            &&& result is None
            &&& rasters_after == rasters
            &&& atlas.unchanged(&atlas_after)
            &&& recorded_after == recorded
        }
    }
}

/// The sub-cache of vector images.
pub struct Cache {
    svgs: Table<u64, Svg>,
    rasterized: Table<Key, Entry>,
}

impl Cache {
    /// What is known of each image, and whether it was used since the last
    /// sweep.
    pub closed spec fn sources(&self) -> Map<u64, (Svg, bool)> {
        self.svgs@
    }

    /// The placement of each rasterization, and whether it was used since
    /// the last sweep.
    pub closed spec fn rasters(&self) -> Map<Key, (Entry, bool)> {
        self.rasterized@
    }

    /// The representation is well formed.
    pub closed spec fn wf(&self) -> bool {
        self.svgs.wf() && self.rasterized.wf()
    }

    /// A cache that knows no image.
    pub fn new() -> (cache: Cache)
        ensures
            cache.wf(),
            cache.sources() == Map::<u64, (Svg, bool)>::empty(),
            cache.rasters() == Map::<Key, (Entry, bool)>::empty(),
    {
        Cache { svgs: Table::new(), rasterized: Table::new() }
    }

    /// Whether anything is known of the image.
    pub fn contains(&self, handle: &Handle) -> (known: bool)
        requires
            self.wf(),
        ensures
            known == self.sources().contains_key(handle.id),
    {
        self.svgs.contains(&handle.id)
    }

    /// Looks at an image: remembers what its handle carries unless the image
    /// is known already, and returns what is known of it.
    pub fn load(&mut self, handle: &Handle) -> (svg: &Svg)
        requires
            old(self).wf(),
        ensures
            final(self).wf(),
            final(self).sources() == loaded(old(self).sources(), *handle),
            final(self).sources().contains_key(handle.id),
            *svg == final(self).sources()[handle.id].0,
            final(self).rasters() == old(self).rasters(),
    {
        if !self.svgs.contains(&handle.id) {
            let svg = match handle.viewport {
                Some(viewport) => Svg::Loaded(viewport),
                None => Svg::NotFound,
            };
            self.svgs.insert(handle.id, svg, false);
        }
        self.svgs.get(&handle.id).unwrap()
    }

    /// Makes sure that the image, filled with `color` and `size` pixels
    /// large, is in the atlas, and returns its placement.
    pub fn upload(
        &mut self,
        encoder: &mut Encoder,
        handle: &Handle,
        color: Option<Color>,
        size: Size,
        atlas: &mut Atlas,
    ) -> (entry: Option<&Entry>)
        requires
            old(self).wf(),
            old(atlas).wf(),
        ensures
            final(self).wf(),
            final(atlas).wf(),
            uploads(
                old(self).sources(),
                old(self).rasters(),
                *old(atlas),
                old(encoder)@,
                *handle,
                color,
                size,
                final(self).sources(),
                final(self).rasters(),
                *final(atlas),
                final(encoder)@,
                match entry {
                    Some(e) => Some(*e),
                    None => None,
                },
            ),
    {
        let key = Key { id: handle.id, width: size.width, height: size.height, color };
        if self.rasterized.contains(&key) {
            self.svgs.touch(&handle.id);
            self.rasterized.touch(&key);
        } else {
            let found = match self.load(handle) {
                Svg::Loaded(_) => true,
                Svg::NotFound => false,
            };
            self.svgs.touch(&handle.id);
            if found {
                match atlas.allocate(size) {
                    Some(entry) => {
                        encoder.record(Source::Vector(key), &entry);
                        self.rasterized.insert(key, entry, true);
                    },
                    None => {},
                }
            }
        }
        self.rasterized.get(&key)
    }

    /// The placement of the image as filled with `color` at `size`, if it
    /// has one. Leaves no mark.
    pub(crate) fn peek(&self, handle: &Handle, color: Option<Color>, size: Size) -> (entry: Option<
        &Entry,
    >)
        requires
            self.wf(),
        ensures
            placement(self.rasters(), key_of(*handle, color, size)) == match entry {
                Some(e) => Some(*e),
                None => None,
            },
    {
        let key = Key { id: handle.id, width: size.width, height: size.height, color };
        self.rasterized.get(&key)
    }

    /// The placement of the image as filled with `color` at `size`, if it
    /// has one. Marks the rasterization and the image as used.
    pub fn atlas_entry(&mut self, handle: &Handle, color: Option<Color>, size: Size) -> (entry:
        Option<&Entry>)
        requires
            old(self).wf(),
        ensures
            final(self).wf(),
            final(self).sources() == marked(old(self).sources(), handle.id),
            final(self).rasters() == marked(old(self).rasters(), key_of(*handle, color, size)),
            placement(old(self).rasters(), key_of(*handle, color, size)) == match entry {
                Some(e) => Some(*e),
                None => None,
            },
    {
        let key = Key { id: handle.id, width: size.width, height: size.height, color };
        self.svgs.touch(&handle.id);
        self.rasterized.touch(&key);
        self.rasterized.get(&key)
    }

    /// Sweeps the cache: forgets every image and every rasterization that
    /// was not used since the last sweep, and gives the placements of the
    /// forgotten rasterizations back to the atlas.
    pub fn trim(&mut self, atlas: &mut Atlas)
        requires
            old(self).wf(),
            old(atlas).wf(),
        ensures
            final(self).wf(),
            final(atlas).wf(),
            final(self).sources() == survivors(old(self).sources()),
            final(self).rasters() == survivors(old(self).rasters()),
            final(atlas).live() == old(atlas).live().difference(released(old(self).rasters())),
            final(atlas).layers() == old(atlas).layers(),
            final(atlas).limit() == old(atlas).limit(),
            final(atlas).layout() == old(atlas).layout(),
    {
        let _ = self.svgs.retain_touched();
        let evicted = self.rasterized.retain_touched();
        let mut k: usize = 0;
        while k < evicted.len()
            invariant
                atlas.wf(),
                k <= evicted.len(),
                atlas.layers() == old(atlas).layers(),
                atlas.limit() == old(atlas).limit(),
                atlas.layout() == old(atlas).layout(),
                forall|a: Allocation|
                    atlas.live().contains(a) <==> old(atlas).live().contains(a) && forall|j: int|
                        0 <= j < k ==> !(#[trigger] evicted@[j]).1.holdings().contains(a),
            decreases evicted.len() - k,
        {
            atlas.free(&evicted[k].1);
            k += 1;
        }
        proof {
            let rasters = old(self).rasters();
            assert forall|a: Allocation|
                atlas.live().contains(a) == old(atlas).live().difference(
                    released(rasters),
                ).contains(a) by {
                if released(rasters).contains(a) {
                    let key = choose|key: Key| #[trigger]
                        claims(rasters, key, a) && !rasters[key].1;
                    assert(rasters.contains_key(key));
                    let j = choose|j: int|
                        0 <= j < evicted@.len() && (#[trigger] evicted@[j]).0 == key;
                    assert(evicted@[j].1.holdings().contains(a));
                }
                if old(atlas).live().contains(a) && !atlas.live().contains(a) {
                    let j = choose|j: int|
                        0 <= j < k && (#[trigger] evicted@[j]).1.holdings().contains(a);
                    assert(claims(rasters, evicted@[j].0, a));
                }
            }
            assert(atlas.live() =~= old(atlas).live().difference(released(rasters)));
        }
    }
}

} // verus!
