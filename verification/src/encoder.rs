//! The copies that the host must make for the atlas to hold what the cache
//! says it holds.

use vstd::prelude::*;
use crate::entry::{Allocation, Entry};
use crate::vector::Key;

verus! {

/// The pixels to copy from.
#[derive(Clone, Copy, Debug, PartialEq, Eq)]
pub enum Source {
    /// The decoded raster image with this id.
    Raster(u64),
    /// The vector image of this key, rasterized for it.
    Vector(Key),
}

/// One copy: the part of `source` that starts at `offset` and is as large as
/// `target` goes to `target`.
#[derive(Clone, Copy, Debug, PartialEq, Eq)]
pub struct Transfer {
    pub source: Source,
    pub offset: (u32, u32),
    pub target: Allocation,
}

/// The copies that bring `source` to the rectangles of `entry`: one per
/// rectangle, in stored order.
pub open spec fn transfers(source: Source, entry: &Entry) -> Seq<Transfer> {
    match *entry {
        Entry::Contiguous(allocation) => seq![
            Transfer { source, offset: (0, 0), target: allocation },
        ],
        Entry::Fragmented { fragments, .. } => Seq::new(
            fragments@.len(),
            |k: int|
                Transfer {
                    source,
                    offset: fragments@[k].position,
                    target: fragments@[k].allocation,
                },
        ),
    }
}

/// Collects copies in the order in which they must be made.
#[derive(Debug)]
pub struct Encoder {
    commands: Vec<Transfer>,
}

impl Encoder {
    /// The copies recorded so far, oldest first.
    pub closed spec fn view(&self) -> Seq<Transfer> {
        self.commands@
    }

    /// An encoder that holds no copy.
    pub fn new() -> (encoder: Encoder)
        ensures
            encoder@ == Seq::<Transfer>::empty(),
    {
        Encoder { commands: Vec::new() }
    }

    /// The number of copies recorded.
    pub fn len(&self) -> (count: usize)
        ensures
            count == self@.len(),
    {
        self.commands.len()
    }

    /// The `index`-th copy recorded, if there are that many.
    pub fn command(&self, index: usize) -> (command: Option<Transfer>)
        ensures
            command == if index < self@.len() {
                Some(self@[index as int])
            } else {
                None
            },
    {
        if index < self.commands.len() {
            Some(self.commands[index])
        } else {
            None
        }
    }

    /// Records the copies that bring `source` to the rectangles of `entry`.
    pub fn record(&mut self, source: Source, entry: &Entry)
        ensures
            final(self)@ == old(self)@ + transfers(source, entry),
    {
        match entry {
            Entry::Contiguous(allocation) => {
                self.commands.push(Transfer { source, offset: (0, 0), target: *allocation });
                assert(self@ =~= old(self)@ + transfers(source, entry));
            },
            Entry::Fragmented { fragments, .. } => {
                let mut k: usize = 0;
                while k < fragments.len()
                    invariant
                        k <= fragments.len(),
                        self@ == old(self)@ + transfers(source, entry).subrange(0, k as int),
                        transfers(source, entry).len() == fragments@.len(),
                        forall|j: int|
                            0 <= j < fragments@.len() ==> #[trigger] transfers(source, entry)[j]
                                == (Transfer {
                                source,
                                offset: fragments@[j].position,
                                target: fragments@[j].allocation,
                            }),
                    decreases fragments.len() - k,
                {
                    let fragment = &fragments[k];
                    let ghost so_far = self@;
                    let transfer = Transfer {
                        source,
                        offset: fragment.position,
                        target: fragment.allocation,
                    };
                    self.commands.push(transfer);
                    assert(transfers(source, entry)[k as int] == transfer);
                    assert(self@ == so_far.push(transfer));
                    assert(transfers(source, entry).subrange(0, k as int + 1) =~= transfers(
                        source,
                        entry,
                    ).subrange(0, k as int).push(transfer));
                    assert(self@ =~= old(self)@ + transfers(source, entry).subrange(
                        0,
                        k as int + 1,
                    ));
                    k += 1;
                }
                assert(transfers(source, entry).subrange(0, k as int) =~= transfers(source, entry));
            },
        }
    }
}

} // verus!
