//! The allocator: which rectangles of which layers are taken.
//!
//! The atlas is a stack of square layers, `SIZE` pixels on each edge. It
//! remembers every rectangle that is in use and hands out rectangles that
//! overlap none of them. It describes the texture array that the host must
//! keep (how many layers, bound through which layout) and leaves the making
//! of it to the host.

use vstd::prelude::*;
use vstd::arithmetic::div_mod::{
    lemma_fundamental_div_mod, lemma_fundamental_div_mod_converse, lemma_multiply_divide_lt,
};
use crate::entry::{Allocation, Entry, Fragment, SIZE};
use crate::geometry::Size;

verus! {

/// What the allocator needs to know about the graphics device.
#[derive(Clone, Copy, Debug, PartialEq, Eq)]
pub struct Device {
    /// Largest number of layers a texture array may have on the device.
    pub max_layers: u32,
}

/// The graphics API that the host drives.
#[derive(Clone, Copy, Debug, PartialEq, Eq)]
pub enum Backend {
    Vulkan,
    Metal,
    Dx12,
    Gl,
    BrowserWebGpu,
}

/// Names the binding layout that the host created for the atlas texture.
#[derive(Clone, Copy, Debug, PartialEq, Eq)]
pub struct Layout {
    pub id: u64,
}

/// Describes the resource that draw calls bind to sample the atlas: a view
/// of a texture array with `layers` layers, bound through `layout`.
#[derive(Clone, Copy, Debug, PartialEq, Eq)]
pub struct BindGroup {
    pub layout: Layout,
    pub layers: u32,
}

/// Number of layers a new atlas starts with. A GL driver takes a texture
/// array of a single layer for a plain texture, so there the atlas starts
/// with two.
pub open spec fn initial_layers(backend: Backend) -> u32 {
    match backend {
        Backend::Gl => 2,
        _ => 1,
    }
}

/// `candidate` lies inside its layer and overlaps nothing in `live`.
pub open spec fn free_at(live: Set<Allocation>, candidate: Allocation) -> bool {
    &&& candidate.fits()
    &&& forall|a: Allocation| #[trigger] live.contains(a) ==> !a.overlaps(candidate)
}

/// `candidate` sits in the corner of its layer, or directly to the right of
/// or directly below a rectangle of `live` in the same layer. These are the
/// only positions the allocator considers.
pub open spec fn anchored(live: Set<Allocation>, candidate: Allocation) -> bool {
    ||| (candidate.x == 0 && candidate.y == 0)
    ||| exists|a: Allocation|
        {
            &&& #[trigger] live.contains(a)
            &&& a.layer == candidate.layer
            &&& ((candidate.x == a.right() && candidate.y == a.y) || (candidate.x == a.x
                && candidate.y == a.bottom()))
        }
}

/// No rectangle of `live` lies in `layer`.
pub open spec fn vacant(live: Set<Allocation>, layer: u32) -> bool {
    forall|a: Allocation| #[trigger] live.contains(a) ==> a.layer != layer
}

/// How many of the layers `0 .. n` are vacant.
pub open spec fn vacant_below(live: Set<Allocation>, n: nat) -> nat
    decreases n,
{
    if n == 0 {
        0
    } else {
        vacant_below(live, (n - 1) as nat) + if vacant(live, (n - 1) as u32) {
            1nat
        } else {
            0nat
        }
    }
}

/// Every rectangle of `live` lies inside one of `layers` layers, and no two
/// of them overlap.
pub open spec fn sound(live: Set<Allocation>, layers: u32) -> bool {
    &&& layers >= 1
    &&& forall|a: Allocation| #[trigger] live.contains(a) ==> a.fits() && a.layer < layers
    &&& forall|a: Allocation, b: Allocation|
        #[trigger] live.contains(a) && #[trigger] live.contains(b) && a != b ==> !a.overlaps(b)
}

/// How many layers an extent of `extent` pixels spans.
pub open spec fn spans(extent: u32) -> int {
    (extent + SIZE - 1) / (SIZE as int)
}

/// How many pieces an image of `size` is cut into when it does not fit a
/// single layer: one per layer-sized cell of the grid that covers it.
pub open spec fn pieces(size: Size) -> int {
    spans(size.width) * spans(size.height)
}

/// The `k`-th piece of an image of `size`, counting row by row: where it
/// lies in the image, and that it sits in the corner of `layer`.
pub open spec fn piece(size: Size, k: int, layer: u32) -> Fragment {
    let x = (k % spans(size.width)) * SIZE;
    let y = (k / spans(size.width)) * SIZE;
    Fragment {
        position: (x as u32, y as u32),
        allocation: Allocation {
            x: 0,
            y: 0,
            width: if size.width - x < SIZE { (size.width - x) as u32 } else { SIZE },
            height: if size.height - y < SIZE { (size.height - y) as u32 } else { SIZE },
            layer,
        },
    }
}

/// `entry` has the shape that the allocator gives to an image of `size`: one
/// rectangle of that size where the image fits a layer, else the grid of its
/// pieces, each in the corner of a layer of its own.
pub open spec fn shaped(entry: &Entry, size: Size) -> bool {
    match *entry {
        Entry::Contiguous(a) => {
            &&& size.width <= SIZE
            &&& size.height <= SIZE
            &&& a.width == size.width
            &&& a.height == size.height
        },
        Entry::Fragmented { size: whole, fragments } => {
            &&& whole == size
            &&& (size.width > SIZE || size.height > SIZE)
            &&& fragments@.len() == pieces(size)
            &&& forall|k: int|
                0 <= k < fragments@.len() ==> #[trigger] fragments@[k] == piece(
                    size,
                    k,
                    fragments@[k].allocation.layer,
                )
            &&& forall|i: int, j: int|
                0 <= i < j < fragments@.len() ==> #[trigger] fragments@[i].allocation.layer
                    != #[trigger] fragments@[j].allocation.layer
        },
    }
}

/// The pixel `(px, py)` of the image lies in the piece `fragment`.
pub open spec fn covers(fragment: Fragment, px: int, py: int) -> bool {
    &&& fragment.position.0 <= px < fragment.position.0 + fragment.allocation.width
    &&& fragment.position.1 <= py < fragment.position.1 + fragment.allocation.height
}

/// `(px, py)` is a pixel of an image of `size`.
pub open spec fn inside(size: Size, px: int, py: int) -> bool {
    0 <= px < size.width && 0 <= py < size.height
}

/// The pixel `(px, py)` lies in one of the pieces.
pub open spec fn covered(fragments: Seq<Fragment>, px: int, py: int) -> bool {
    exists|k: int| 0 <= k < fragments.len() && covers(#[trigger] fragments[k], px, py)
}

/// The pieces of a fragmented placement tile the image: every pixel of the
/// image lies in one piece and in no other.
pub proof fn pieces_tile_the_image(size: Size, fragments: Vec<Fragment>)
    requires
        shaped(&Entry::Fragmented { size, fragments }, size),
    ensures
        forall|px: int, py: int| #[trigger] inside(size, px, py) ==> covered(fragments@, px, py),
        forall|i: int, j: int, px: int, py: int|
            0 <= i < fragments@.len() && 0 <= j < fragments@.len() && #[trigger] covers(
                fragments@[i],
                px,
                py,
            ) && #[trigger] covers(fragments@[j], px, py) ==> i == j,
{
    let columns = spans(size.width);
    let rows = spans(size.height);
    let edge = SIZE as int;
    assert forall|k: int| 0 <= k < fragments@.len() implies {
        &&& 0 <= k % columns < columns
        &&& 0 <= k / columns < rows
        &&& (#[trigger] fragments@[k]).position.0 == (k % columns) * edge
        &&& fragments@[k].position.1 == (k / columns) * edge
        &&& fragments@[k].allocation.width <= edge
        &&& fragments@[k].allocation.height <= edge
        &&& fragments@[k].position.0 + fragments@[k].allocation.width <= size.width
        &&& fragments@[k].position.1 + fragments@[k].allocation.height <= size.height
        &&& fragments@[k].position.0 + fragments@[k].allocation.width == size.width
            || fragments@[k].allocation.width == edge
        &&& fragments@[k].position.1 + fragments@[k].allocation.height == size.height
            || fragments@[k].allocation.height == edge
    } by {
        assert(columns > 0) by (nonlinear_arith)
            requires
                columns >= 0,
                0 <= k < columns * rows,
        ;
        lemma_multiply_divide_lt(k, columns, rows);
        lemma_fundamental_div_mod(k, columns);
        assert(fragments@[k] == piece(size, k, fragments@[k].allocation.layer));
    }
    assert forall|px: int, py: int| #[trigger] inside(size, px, py) implies covered(
        fragments@,
        px,
        py,
    ) by {
        let column = px / edge;
        let row = py / edge;
        let k = row * columns + column;
        assert(0 <= k < columns * rows) by (nonlinear_arith)
            requires
                0 <= column < columns,
                0 <= row < rows,
                k == row * columns + column,
        ;
        lemma_fundamental_div_mod_converse(k, columns, row, column);
        assert(covers(fragments@[k], px, py));
    }
    assert forall|i: int, j: int, px: int, py: int|
        0 <= i < fragments@.len() && 0 <= j < fragments@.len() && #[trigger] covers(
            fragments@[i],
            px,
            py,
        ) && #[trigger] covers(fragments@[j], px, py) implies i == j by {
        lemma_fundamental_div_mod(i, columns);
        lemma_fundamental_div_mod(j, columns);
        assert(i % columns == px / edge);
        assert(j % columns == px / edge);
        assert(i / columns == py / edge);
        assert(j / columns == py / edge);
    }
}

proof fn lemma_occupy(live: Set<Allocation>, a: Allocation, n: nat)
    requires
        vacant(live, a.layer),
        n <= u32::MAX + 1,
    ensures
        vacant_below(live.insert(a), n) == vacant_below(live, n) - if a.layer < n {
            1int
        } else {
            0int
        },
    decreases n,
{
    if n > 0 {
        lemma_occupy(live, a, (n - 1) as nat);
        let l = (n - 1) as u32;
        if l == a.layer {
            assert(live.insert(a).contains(a));
        } else if vacant(live, l) {
            assert forall|b: Allocation| #[trigger] live.insert(a).contains(b) implies b.layer
                != l by {}
        } else {
            let b = choose|b: Allocation| live.contains(b) && b.layer == l;
            assert(live.insert(a).contains(b));
        }
    }
}

proof fn lemma_crowded(live: Set<Allocation>, n: nat)
    requires
        n <= u32::MAX,
        forall|l: u32| l < n ==> !vacant(live, l),
    ensures
        vacant_below(live, n) == 0,
    decreases n,
{
    if n > 0 {
        lemma_crowded(live, (n - 1) as nat);
    }
}

proof fn lemma_some_vacant(live: Set<Allocation>, n: nat, layer: u32)
    requires
        n <= u32::MAX + 1,
        layer < n,
        vacant(live, layer),
    ensures
        vacant_below(live, n) > 0,
    decreases n,
{
    if layer < n - 1 {
        lemma_some_vacant(live, (n - 1) as nat, layer);
    }
}

/// The allocator.
#[derive(Debug)]
pub struct Atlas {
    allocations: Vec<Allocation>,
    limit: u32,
    bind_group: BindGroup,
}

impl Atlas {
    /// The rectangles in use.
    pub closed spec fn live(&self) -> Set<Allocation> {
        self.allocations@.to_set()
    }

    /// The number of layers.
    pub closed spec fn layers(&self) -> u32 {
        self.bind_group.layers
    }

    /// The number of layers that the atlas will not grow beyond.
    pub closed spec fn limit(&self) -> u32 {
        self.limit
    }

    /// The layout that the atlas was made for.
    pub closed spec fn layout(&self) -> Layout {
        self.bind_group.layout
    }

    /// The representation holds each rectangle once.
    pub closed spec fn inv(&self) -> bool {
        self.allocations@.no_duplicates()
    }

    /// The atlas is well formed: its rectangles lie inside its layers and
    /// do not overlap.
    pub open spec fn wf(&self) -> bool {
        &&& self.inv()
        &&& sound(self.live(), self.layers())
    }

    /// How many layers may still be added.
    pub open spec fn growth(&self) -> int {
        if self.limit() > self.layers() {
            self.limit() - self.layers()
        } else {
            0
        }
    }

    /// How many pieces of a fragmented image could be placed now: each takes
    /// a vacant layer or a new one.
    pub open spec fn capacity(&self) -> int {
        vacant_below(self.live(), self.layers() as nat) + self.growth()
    }

    /// `candidate` is a free position for an image of `size` in one of the
    /// present layers.
    pub open spec fn spot(&self, size: Size, candidate: Allocation) -> bool {
        &&& candidate.width == size.width
        &&& candidate.height == size.height
        &&& candidate.layer < self.layers()
        &&& anchored(self.live(), candidate)
        &&& free_at(self.live(), candidate)
    }

    /// There is a free position for an image of `size` in one of the
    /// present layers.
    pub open spec fn has_spot(&self, size: Size) -> bool {
        exists|c: Allocation| self.spot(size, c)
    }

    /// How many layers granting a placement for `size` adds: one for an
    /// image that fits a layer and finds no free position; for a larger
    /// image, one for each piece that no vacant layer is left for.
    pub open spec fn added(&self, size: Size) -> int {
        if size.width <= SIZE && size.height <= SIZE {
            if self.has_spot(size) {
                0
            } else {
                1
            }
        } else {
            let vacancies = vacant_below(self.live(), self.layers() as nat);
            if pieces(size) > vacancies {
                pieces(size) - vacancies
            } else {
                0
            }
        }
    }

    /// Whether a request for `size` succeeds.
    ///
    /// Nothing is placed for an empty size. An image that fits a layer needs
    /// a free position in a present layer, or a layer that can still be added.
    /// A larger image needs a vacant or new layer for each of its pieces.
    pub open spec fn has_room(&self, size: Size) -> bool {
        if size.is_empty() {
            false
        } else if size.width <= SIZE && size.height <= SIZE {
            self.layers() < self.limit() || self.has_spot(size)
        } else {
            pieces(size) <= self.capacity()
        }
    }

    /// `post` differs from `self` in nothing that a caller can observe.
    pub open spec fn unchanged(&self, post: &Atlas) -> bool {
        &&& post.live() == self.live()
        &&& post.layers() == self.layers()
        &&& post.limit() == self.limit()
        &&& post.layout() == self.layout()
    }

    /// `entry` is a placement for `size` that `self` may grant, leaving
    /// `post`: it has the shape for that size, each of its rectangles was
    /// free in `self` and lies in a layer of `post`, and `post` holds the
    /// rectangles of `self` and those of `entry`. A single rectangle takes a
    /// free position of a present layer where there is one, else the corner
    /// of a new layer. Each piece of a larger image takes a layer that was
    /// vacant or is new. Layers are added only as far as that requires.
    pub open spec fn grants(&self, size: Size, entry: &Entry, post: &Atlas) -> bool {
        &&& shaped(entry, size)
        &&& forall|i: int|
            0 <= i < entry.allocations().len() ==> free_at(
                self.live(),
                #[trigger] entry.allocations()[i],
            ) && entry.allocations()[i].layer < post.layers()
        &&& match *entry {
            Entry::Contiguous(a) => if self.has_spot(size) {
                self.spot(size, a)
            } else {
                a.x == 0 && a.y == 0 && a.layer == self.layers()
            },
            Entry::Fragmented { fragments, .. } => forall|i: int|
                0 <= i < fragments@.len() ==> vacant(
                    self.live(),
                    (#[trigger] fragments@[i]).allocation.layer,
                ),
        }
        &&& post.live() == self.live().union(entry.holdings())
        &&& post.layers() == self.layers() + self.added(size)
        &&& post.limit() == self.limit()
        &&& post.layout() == self.layout()
    }

    /// Two atlases that a caller cannot tell apart have room for the same
    /// sizes.
    pub proof fn unchanged_has_same_room(&self, other: &Atlas, size: Size)
        requires
            self.unchanged(other),
        ensures
            self.has_room(size) == other.has_room(size),
    {
        if exists|c: Allocation| self.spot(size, c) {
            let c = choose|c: Allocation| self.spot(size, c);
            assert(other.spot(size, c));
        }
        if exists|c: Allocation| other.spot(size, c) {
            let c = choose|c: Allocation| other.spot(size, c);
            assert(self.spot(size, c));
        }
    }

    /// An atlas with nothing in it.
    pub fn new(device: &Device, backend: Backend, layout: Layout) -> (atlas: Atlas)
        ensures
            atlas.wf(),
            atlas.live() == Set::<Allocation>::empty(),
            atlas.layers() == initial_layers(backend),
            atlas.limit() == device.max_layers,
            atlas.layout() == layout,
    {
        let layers: u32 = match backend {
            Backend::Gl => 2,
            _ => 1,
        };
        let atlas = Atlas {
            allocations: Vec::new(),
            limit: device.max_layers,
            bind_group: BindGroup { layout, layers },
        };
        assert(atlas.live() =~= Set::<Allocation>::empty());
        atlas
    }

    /// The number of layers.
    pub fn layer_count(&self) -> (count: usize)
        ensures
            count == self.layers(),
    {
        self.bind_group.layers as usize
    }

    /// The resource to bind for sampling, as the atlas stands now.
    pub fn bind_group(&self) -> (group: &BindGroup)
        ensures
            *group == (BindGroup { layout: self.layout(), layers: self.layers() }),
    {
        &self.bind_group
    }

    /// The layout that the atlas was made for.
    pub fn bind_group_layout(&self) -> (layout: Layout)
        ensures
            layout == self.layout(),
    {
        self.bind_group.layout
    }

    fn is_free(&self, candidate: &Allocation) -> (free: bool)
        requires
            self.wf(),
        ensures
            free == free_at(self.live(), *candidate),
    {
        if candidate.width == 0 || candidate.height == 0 || candidate.x as u64
            + candidate.width as u64 > SIZE as u64 || candidate.y as u64 + candidate.height as u64
            > SIZE as u64 {
            return false;
        }
        let mut k: usize = 0;
        while k < self.allocations.len()
            invariant
                self.wf(),
                k <= self.allocations.len(),
                candidate.fits(),
                forall|j: int| 0 <= j < k ==> !self.allocations@[j].overlaps(*candidate),
            decreases self.allocations.len() - k,
        {
            let a = self.allocations[k];
            assert(self.live().contains(a)) by {
                assert(self.allocations@[k as int] == a);
            }
            if a.layer == candidate.layer && a.x < candidate.x + candidate.width && candidate.x
                < a.x + a.width && a.y < candidate.y + candidate.height && candidate.y < a.y
                + a.height {
                return false;
            }
            k += 1;
        }
        true
    }

    fn is_vacant(&self, layer: u32) -> (empty: bool)
        ensures
            empty == vacant(self.live(), layer),
    {
        let mut k: usize = 0;
        while k < self.allocations.len()
            invariant
                k <= self.allocations.len(),
                forall|j: int| 0 <= j < k ==> self.allocations@[j].layer != layer,
            decreases self.allocations.len() - k,
        {
            if self.allocations[k].layer == layer {
                assert(self.live().contains(self.allocations@[k as int]));
                return false;
            }
            k += 1;
        }
        true
    }

    fn count_vacant(&self) -> (count: u32)
        ensures
            count == vacant_below(self.live(), self.layers() as nat),
    {
        let mut count: u32 = 0;
        let mut layer: u32 = 0;
        while layer < self.bind_group.layers
            invariant
                layer <= self.layers(),
                count == vacant_below(self.live(), layer as nat),
                count <= layer,
            decreases self.layers() - layer,
        {
            if self.is_vacant(layer) {
                count += 1;
            }
            layer += 1;
        }
        count
    }

    fn first_vacant(&self) -> (found: Option<u32>)
        ensures
            match found {
                Some(layer) => layer < self.layers() && vacant(self.live(), layer),
                None => forall|l: u32| l < self.layers() ==> !vacant(self.live(), l),
            },
    {
        let mut layer: u32 = 0;
        while layer < self.bind_group.layers
            invariant
                layer <= self.layers(),
                forall|l: u32| l < layer ==> !vacant(self.live(), l),
            decreases self.layers() - layer,
        {
            if self.is_vacant(layer) {
                return Some(layer);
            }
            layer += 1;
        }
        None
    }

    fn occupy(&mut self, taken: Allocation)
        requires
            old(self).wf(),
            free_at(old(self).live(), taken),
            taken.layer < old(self).layers(),
        ensures
            final(self).wf(),
            final(self).live() == old(self).live().insert(taken),
            final(self).layers() == old(self).layers(),
            final(self).limit() == old(self).limit(),
            final(self).layout() == old(self).layout(),
    {
        proof {
            if old(self).live().contains(taken) {
                assert(taken.overlaps(taken));
            }
        }
        self.allocations.push(taken);
        proof {
            let before = old(self).allocations@;
            let after = self.allocations@;
            assert(after == before.push(taken));
            assert forall|a: Allocation| self.live().contains(a) == old(self).live().insert(
                taken,
            ).contains(a) by {
                if before.contains(a) {
                    let i = choose|i: int| 0 <= i < before.len() && before[i] == a;
                    assert(after[i] == a);
                }
                if a == taken {
                    assert(after[before.len() as int] == a);
                }
            }
            assert(self.live() =~= old(self).live().insert(taken));
            assert forall|i: int, j: int|
                0 <= i < after.len() && 0 <= j < after.len() && i != j implies after[i]
                != after[j] by {
                if i < before.len() {
                    assert(before.contains(before[i]));
                }
                if j < before.len() {
                    assert(before.contains(before[j]));
                }
            }
        }
    }

    fn find_spot(&self, size: Size) -> (found: Option<Allocation>)
        requires
            self.wf(),
        ensures
            match found {
                Some(c) => self.spot(size, c),
                None => forall|c: Allocation| !self.spot(size, c),
            },
    {
        let mut layer: u32 = 0;
        while layer < self.bind_group.layers
            invariant
                self.wf(),
                layer <= self.layers(),
                forall|c: Allocation| c.layer < layer ==> !self.spot(size, c),
            decreases self.layers() - layer,
        {
            let corner = Allocation {
                x: 0,
                y: 0,
                width: size.width,
                height: size.height,
                layer,
            };
            if self.is_free(&corner) {
                return Some(corner);
            }
            let mut k: usize = 0;
            while k < self.allocations.len()
                invariant
                    self.wf(),
                    layer < self.layers(),
                    k <= self.allocations.len(),
                    !free_at(self.live(), corner),
                    corner == (Allocation {
                        x: 0,
                        y: 0,
                        width: size.width,
                        height: size.height,
                        layer,
                    }),
                    forall|c: Allocation, j: int|
                        #![trigger self.spot(size, c), self.allocations@[j]]
                        0 <= j < k && c.layer == layer && self.allocations@[j].layer == layer && ((
                        c.x == self.allocations@[j].right() && c.y == self.allocations@[j].y) || (
                        c.x == self.allocations@[j].x && c.y == self.allocations@[j].bottom()))
                            ==> !self.spot(size, c),
                decreases self.allocations.len() - k,
            {
                let a = self.allocations[k];
                assert(self.live().contains(a)) by {
                    assert(self.allocations@[k as int] == a);
                }
                if a.layer == layer {
                    let beside = Allocation {
                        x: a.x + a.width,
                        y: a.y,
                        width: size.width,
                        height: size.height,
                        layer,
                    };
                    if self.is_free(&beside) {
                        return Some(beside);
                    }
                    let below = Allocation {
                        x: a.x,
                        y: a.y + a.height,
                        width: size.width,
                        height: size.height,
                        layer,
                    };
                    if self.is_free(&below) {
                        return Some(below);
                    }
                    assert forall|c: Allocation|
                        c.layer == layer && ((c.x == a.right() && c.y == a.y) || (c.x == a.x && c.y
                            == a.bottom())) implies !self.spot(size, c) by {
                        if self.spot(size, c) {
                            assert(c == beside || c == below);
                        }
                    }
                }
                k += 1;
            }
            proof {
                assert forall|c: Allocation| c.layer == layer implies !self.spot(size, c) by {
                    if self.spot(size, c) {
                        if c.x == 0 && c.y == 0 {
                            assert(c == corner);
                        } else {
                            let a = choose|a: Allocation|
                                {
                                    &&& #[trigger] self.live().contains(a)
                                    &&& a.layer == c.layer
                                    &&& ((c.x == a.right() && c.y == a.y) || (c.x == a.x && c.y
                                        == a.bottom()))
                                };
                            let j = choose|j: int|
                                0 <= j < self.allocations@.len() && self.allocations@[j] == a;
                            assert(self.allocations@[j].layer == layer);
                        }
                    }
                }
            }
            layer += 1;
        }
        None
    }

    /// Finds room for an image of `size` and takes it.
    ///
    /// Succeeds exactly when there is room. On success the placement is one
    /// that the atlas may grant; on failure nothing changes.
    pub fn allocate(&mut self, size: Size) -> (granted: Option<Entry>)
        requires
            old(self).wf(),
        ensures
            final(self).wf(),
            granted.is_some() == old(self).has_room(size),
            match granted {
                Some(entry) => old(self).grants(size, &entry, final(self)),
                None => old(self).unchanged(final(self)),
            },
    {
        if size.width == 0 || size.height == 0 {
            return None;
        }
        if size.width <= SIZE && size.height <= SIZE {
            match self.find_spot(size) {
                Some(taken) => {
                    self.occupy(taken);
                    let entry = Entry::Contiguous(taken);
                    proof {
                        assert(entry.allocations()[0] == taken);
                        assert(entry.holdings() =~= set![taken]);
                        assert(self.live() =~= old(self).live().union(entry.holdings()));
                    }
                    Some(entry)
                },
                None => {
                    if self.bind_group.layers < self.limit {
                        let taken = Allocation {
                            x: 0,
                            y: 0,
                            width: size.width,
                            height: size.height,
                            layer: self.bind_group.layers,
                        };
                        self.bind_group.layers = self.bind_group.layers + 1;
                        assert(self.live() == old(self).live());
                        self.occupy(taken);
                        let entry = Entry::Contiguous(taken);
                        proof {
                            assert(entry.allocations()[0] == taken);
                            assert(entry.holdings() =~= set![taken]);
                            assert(self.live() =~= old(self).live().union(entry.holdings()));
                        }
                        Some(entry)
                    } else {
                        None
                    }
                },
            }
        } else {
            self.allocate_pieces(size)
        }
    }

    fn place_piece(&mut self, width: u32, height: u32) -> (taken: Allocation)
        requires
            old(self).wf(),
            old(self).capacity() >= 1,
            0 < width <= SIZE,
            0 < height <= SIZE,
        ensures
            final(self).wf(),
            taken == (Allocation { x: 0, y: 0, width, height, layer: taken.layer }),
            vacant(old(self).live(), taken.layer),
            taken.layer < final(self).layers(),
            final(self).live() == old(self).live().insert(taken),
            final(self).capacity() == old(self).capacity() - 1,
            final(self).layers() == old(self).layers() + if vacant_below(
                old(self).live(),
                old(self).layers() as nat,
            ) > 0 {
                0int
            } else {
                1int
            },
            final(self).limit() == old(self).limit(),
            final(self).layout() == old(self).layout(),
    {
        let layer = match self.first_vacant() {
            Some(layer) => {
                proof {
                    lemma_some_vacant(self.live(), self.layers() as nat, layer);
                }
                layer
            },
            None => {
                proof {
                    lemma_crowded(self.live(), self.layers() as nat);
                }
                let layer = self.bind_group.layers;
                self.bind_group.layers = layer + 1;
                assert(self.live() == old(self).live());
                layer
            },
        };
        let taken = Allocation { x: 0, y: 0, width, height, layer };
        proof {
            let grown = self.layers() as nat;
            lemma_occupy(old(self).live(), taken, grown);
            assert(old(self).live().insert(taken).contains(taken));
        }
        self.occupy(taken);
        taken
    }

    fn allocate_pieces(&mut self, size: Size) -> (granted: Option<Entry>)
        requires
            old(self).wf(),
            size.width > SIZE || size.height > SIZE,
            !size.is_empty(),
        ensures
            final(self).wf(),
            granted.is_some() == old(self).has_room(size),
            match granted {
                Some(entry) => old(self).grants(size, &entry, final(self)),
                None => old(self).unchanged(final(self)),
            },
    {
        let columns: u64 = (size.width as u64 + 2047) / 2048;
        let rows: u64 = (size.height as u64 + 2047) / 2048;
        assert(columns * rows <= 0x20_0000 * 0x20_0000) by (nonlinear_arith)
            requires
                0 <= columns <= 0x20_0000,
                0 <= rows <= 0x20_0000,
        ;
        let needed: u64 = columns * rows;
        let vacancies = self.count_vacant();
        let growth: u32 = if self.limit > self.bind_group.layers {
            self.limit - self.bind_group.layers
        } else {
            0
        };
        if needed > vacancies as u64 + growth as u64 {
            return None;
        }
        let mut fragments: Vec<Fragment> = Vec::new();
        let mut k: u64 = 0;
        while k < needed
            invariant
                self.wf(),
                columns == spans(size.width),
                rows == spans(size.height),
                needed == pieces(size),
                needed == columns * rows,
                columns > 0,
                k <= needed,
                needed - k <= self.capacity(),
                self.limit() == old(self).limit(),
                self.layout() == old(self).layout(),
                vacancies == vacant_below(old(self).live(), old(self).layers() as nat),
                vacant_below(self.live(), self.layers() as nat) == if k <= vacancies {
                    vacancies - k
                } else {
                    0
                },
                self.layers() == old(self).layers() + if k <= vacancies {
                    0
                } else {
                    k - vacancies
                },
                fragments@.len() == k,
                forall|a: Allocation| old(self).live().contains(a) ==> self.live().contains(a),
                forall|a: Allocation|
                    self.live().contains(a) ==> old(self).live().contains(a) || exists|j: int|
                        0 <= j < k && #[trigger] fragments@[j].allocation == a,
                forall|j: int|
                    0 <= j < k ==> {
                        &&& #[trigger] fragments@[j] == piece(size, j, fragments@[j].allocation.layer)
                        &&& vacant(old(self).live(), fragments@[j].allocation.layer)
                        &&& self.live().contains(fragments@[j].allocation)
                        &&& free_at(old(self).live(), fragments@[j].allocation)
                        &&& fragments@[j].allocation.layer < self.layers()
                    },
                forall|i: int, j: int|
                    0 <= i < j < k ==> #[trigger] fragments@[i].allocation.layer
                        != #[trigger] fragments@[j].allocation.layer,
            decreases needed - k,
        {
            let column = k % columns;
            let row = k / columns;
            proof {
                lemma_multiply_divide_lt(k as int, columns as int, rows as int);
            }
            let x: u32 = (column * 2048) as u32;
            let y: u32 = (row * 2048) as u32;
            let width: u32 = if size.width - x < SIZE {
                size.width - x
            } else {
                SIZE
            };
            let height: u32 = if size.height - y < SIZE {
                size.height - y
            } else {
                SIZE
            };
            let ghost before = self.live();
            let taken = self.place_piece(width, height);
            let fragment = Fragment { position: (x, y), allocation: taken };
            proof {
                assert(fragment == piece(size, k as int, taken.layer));
                assert(free_at(old(self).live(), taken)) by {
                    assert forall|a: Allocation| #[trigger]
                        old(self).live().contains(a) implies !a.overlaps(taken) by {
                        assert(before.contains(a));
                    }
                }
                assert(vacant(old(self).live(), taken.layer)) by {
                    assert forall|a: Allocation| #[trigger]
                        old(self).live().contains(a) implies a.layer != taken.layer by {
                        assert(before.contains(a));
                    }
                }
                assert forall|i: int| 0 <= i < k implies #[trigger] fragments@[i].allocation.layer
                    != taken.layer by {
                    assert(before.contains(fragments@[i].allocation));
                }
            }
            let ghost placed = fragments@;
            fragments.push(fragment);
            proof {
                assert forall|a: Allocation| self.live().contains(a) implies old(
                    self,
                ).live().contains(a) || exists|j: int|
                    0 <= j < k + 1 && #[trigger] fragments@[j].allocation == a by {
                    if a == taken {
                        assert(fragments@[k as int].allocation == a);
                    } else if !old(self).live().contains(a) {
                        let j = choose|j: int| 0 <= j < k && #[trigger] placed[j].allocation == a;
                        assert(fragments@[j].allocation == a);
                    }
                }
            }
            k += 1;
        }
        let entry = Entry::Fragmented { size, fragments };
        proof {
            assert(self.live() =~= old(self).live().union(entry.holdings())) by {
                assert forall|a: Allocation| self.live().contains(a) == old(self).live().union(
                    entry.holdings(),
                ).contains(a) by {
                    if entry.holdings().contains(a) {
                        let j = choose|j: int|
                            0 <= j < entry.allocations().len() && entry.allocations()[j] == a;
                        assert(fragments@[j].allocation == a);
                    }
                    if self.live().contains(a) && !old(self).live().contains(a) {
                        let j = choose|j: int| 0 <= j < k && #[trigger] fragments@[j].allocation == a;
                        assert(entry.allocations()[j] == a);
                    }
                }
            }
        }
        Some(entry)
    }

    fn release(&mut self, freed: &Allocation)
        requires
            old(self).wf(),
        ensures
            final(self).wf(),
            final(self).live() == old(self).live().remove(*freed),
            final(self).layers() == old(self).layers(),
            final(self).limit() == old(self).limit(),
            final(self).layout() == old(self).layout(),
    {
        let mut k: usize = 0;
        while k < self.allocations.len()
            invariant
                self.wf(),
                *self == *old(self),
                k <= self.allocations.len(),
                forall|j: int| 0 <= j < k ==> self.allocations@[j] != *freed,
            decreases self.allocations.len() - k,
        {
            let a = self.allocations[k];
            if a.x == freed.x && a.y == freed.y && a.width == freed.width && a.height
                == freed.height && a.layer == freed.layer {
                let ghost before = self.allocations@;
                let _ = self.allocations.remove(k);
                proof {
                    let after = self.allocations@;
                    assert(after == before.remove(k as int));
                    assert forall|b: Allocation| self.live().contains(b) == old(
                        self,
                    ).live().remove(*freed).contains(b) by {
                        if after.contains(b) {
                            let i = choose|i: int| 0 <= i < after.len() && after[i] == b;
                            if i < k {
                                assert(before[i] == b);
                            } else {
                                assert(before[i + 1] == b);
                            }
                        }
                        if before.contains(b) && b != *freed {
                            let i = choose|i: int| 0 <= i < before.len() && before[i] == b;
                            if i < k {
                                assert(after[i] == b);
                            } else {
                                assert(after[i - 1] == b);
                            }
                        }
                    }
                    assert(self.live() =~= old(self).live().remove(*freed));
                    assert forall|i: int, j: int|
                        0 <= i < after.len() && 0 <= j < after.len() && i != j implies after[i]
                        != after[j] by {
                        let oi = if i < k { i } else { i + 1 };
                        let oj = if j < k { j } else { j + 1 };
                        assert(after[i] == before[oi]);
                        assert(after[j] == before[oj]);
                    }
                }
                return ;
            }
            k += 1;
        }
        proof {
            assert(self.live() =~= old(self).live().remove(*freed));
        }
    }

    /// Gives the rectangles of a placement back.
    ///
    /// Rectangles of `entry` that are not in use are passed over.
    pub fn free(&mut self, entry: &Entry)
        requires
            old(self).wf(),
        ensures
            final(self).wf(),
            final(self).live() == old(self).live().difference(entry.holdings()),
            final(self).layers() == old(self).layers(),
            final(self).limit() == old(self).limit(),
            final(self).layout() == old(self).layout(),
    {
        match entry {
            Entry::Contiguous(allocation) => {
                self.release(allocation);
                proof {
                    assert(entry.allocations()[0] == *allocation);
                    assert(entry.holdings() =~= set![*allocation]);
                    assert(self.live() =~= old(self).live().difference(entry.holdings()));
                }
            },
            Entry::Fragmented { fragments, .. } => {
                let mut k: usize = 0;
                while k < fragments.len()
                    invariant
                        self.wf(),
                        k <= fragments.len(),
                        self.layers() == old(self).layers(),
                        self.limit() == old(self).limit(),
                        self.layout() == old(self).layout(),
                        forall|a: Allocation|
                            self.live().contains(a) <==> old(self).live().contains(a) && forall|
                                j: int,
                            |
                                0 <= j < k ==> #[trigger] fragments@[j].allocation != a,
                    decreases fragments.len() - k,
                {
                    self.release(&fragments[k].allocation);
                    k += 1;
                }
                proof {
                    assert forall|a: Allocation| self.live().contains(a) == old(
                        self,
                    ).live().difference(entry.holdings()).contains(a) by {
                        if entry.holdings().contains(a) {
                            let j = choose|j: int|
                                0 <= j < entry.allocations().len() && entry.allocations()[j] == a;
                            assert(fragments@[j].allocation == a);
                        }
                        if old(self).live().contains(a) && !self.live().contains(a) {
                            let j = choose|j: int|
                                0 <= j < k && #[trigger] fragments@[j].allocation == a;
                            assert(entry.allocations()[j] == a);
                        }
                    }
                    assert(self.live() =~= old(self).live().difference(entry.holdings()));
                }
            },
        }
    }
}

} // verus!
