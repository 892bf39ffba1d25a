//! Placements: where an image lives inside the atlas.

use vstd::prelude::*;
use crate::geometry::Size;

verus! {

/// Edge length, in pixels, of every layer of the atlas. Layers are square.
pub const SIZE: u32 = 2048;

/// One rectangle of one layer.
#[derive(Clone, Copy, Debug, PartialEq, Eq, Structural)]
pub struct Allocation {
    /// Left edge, in pixels from the left of the layer.
    pub x: u32,
    /// Top edge, in pixels from the top of the layer.
    pub y: u32,
    pub width: u32,
    pub height: u32,
    /// Index of the layer that holds the rectangle.
    pub layer: u32,
}

impl Allocation {
    /// First column to the right of the rectangle.
    pub open spec fn right(self) -> int {
        self.x + self.width
    }

    /// First row below the rectangle.
    pub open spec fn bottom(self) -> int {
        self.y + self.height
    }

    /// The rectangle covers at least one pixel and lies inside its layer.
    pub open spec fn fits(self) -> bool {
        &&& self.width > 0
        &&& self.height > 0
        &&& self.right() <= SIZE
        &&& self.bottom() <= SIZE
    }

    /// The two rectangles share at least one pixel of the same layer.
    pub open spec fn overlaps(self, other: Allocation) -> bool {
        &&& self.layer == other.layer
        &&& self.x < other.right()
        &&& other.x < self.right()
        &&& self.y < other.bottom()
        &&& other.y < self.bottom()
    }

    /// Top-left corner of the rectangle inside its layer.
    pub fn position(&self) -> (position: (u32, u32))
        ensures
            position == (self.x, self.y),
    {
        (self.x, self.y)
    }

    /// Extent of the rectangle.
    pub fn size(&self) -> (size: Size)
        ensures
            size == (Size { width: self.width, height: self.height }),
    {
        Size { width: self.width, height: self.height }
    }

    /// Index of the layer that holds the rectangle.
    pub fn layer(&self) -> (layer: usize)
        ensures
            layer == self.layer,
    {
        self.layer as usize
    }
}

/// One piece of an image that is too large for a single layer.
#[derive(Clone, Copy, Debug, PartialEq, Eq)]
pub struct Fragment {
    /// Top-left corner of the piece inside the image.
    pub position: (u32, u32),
    /// Rectangle of the atlas that holds the piece.
    pub allocation: Allocation,
}

/// The placement of one image.
#[derive(Debug, PartialEq, Eq)]
pub enum Entry {
    /// The whole image in one rectangle.
    Contiguous(Allocation),
    /// The image cut into pieces, each in a rectangle of its own.
    Fragmented {
        /// Extent of the whole image.
        size: Size,
        /// The pieces, row by row.
        fragments: Vec<Fragment>,
    },
}

impl Entry {
    /// Extent of the image the placement was made for.
    pub open spec fn extent(&self) -> Size {
        match *self {
            Entry::Contiguous(allocation) => Size {
                width: allocation.width,
                height: allocation.height,
            },
            Entry::Fragmented { size, .. } => size,
        }
    }

    /// The rectangles of the placement, in stored order.
    pub open spec fn allocations(&self) -> Seq<Allocation> {
        match *self {
            Entry::Contiguous(allocation) => seq![allocation],
            Entry::Fragmented { fragments, .. } => fragments@.map_values(
                |fragment: Fragment| fragment.allocation,
            ),
        }
    }

    /// The rectangles of the placement, as a set.
    pub open spec fn holdings(&self) -> Set<Allocation> {
        self.allocations().to_set()
    }

    /// Extent of the image the placement was made for.
    pub fn size(&self) -> (size: Size)
        ensures
            size == self.extent(),
    {
        match self {
            Entry::Contiguous(allocation) => allocation.size(),
            Entry::Fragmented { size, .. } => *size,
        }
    }
}

} // verus!
