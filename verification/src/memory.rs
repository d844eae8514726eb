//! What every piece of device-visible memory has in common: where it is,
//! how long it is, and the keys under which it is reached.

use vstd::prelude::*;

verus! {

/// A run of `length` bytes that starts at address `addr`.
#[derive(Clone, Copy, PartialEq, Eq, Structural, Debug)]
pub struct Extent {
    pub addr: usize,
    pub length: usize,
}

impl Extent {
    /// The address just past the last byte.
    pub open spec fn end(self) -> int {
        self.addr + self.length
    }

    /// Every byte of `inner` is a byte of `self`.
    pub open spec fn encloses(self, inner: Extent) -> bool {
        self.addr <= inner.addr && inner.end() <= self.end()
    }

    /// The two extents have no byte in common.
    pub open spec fn disjoint_from(self, other: Extent) -> bool {
        self.end() <= other.addr || other.end() <= self.addr
    }
}

/// A request for memory: `size` bytes, preferably aligned to `align`.
#[derive(Clone, Copy, PartialEq, Eq, Structural, Debug)]
pub struct Layout {
    pub size: usize,
    pub align: usize,
}

impl Layout {
    /// A request for `size` bytes aligned to `align`.
    pub fn new(size: usize, align: usize) -> (layout: Layout)
        ensures
            layout == (Layout { size, align }),
    {
        Layout { size, align }
    }
}

/// Memory with an address and a length, wherever it lives.
pub trait RdmaMemory {
    /// The bytes that make up the memory.
    spec fn extent(&self) -> Extent;

    /// The address of the first byte.
    fn addr(&self) -> (addr: usize)
        ensures
            addr == self.extent().addr,
    ;

    /// The number of bytes.
    fn length(&self) -> (length: usize)
        ensures
            length == self.extent().length,
    ;
}

/// Memory that this host reaches under a local access key.
pub trait RdmaLocalMemory: RdmaMemory {
    /// The key under which the device reaches the memory locally.
    spec fn local_key(&self) -> u32;

    /// The local access key.
    fn lkey(&self) -> (key: u32)
        ensures
            key == self.local_key(),
    ;
}

/// Memory that a peer reaches under a remote access key.
pub trait RdmaRemoteMemory: RdmaMemory {
    /// The key under which a peer reaches the memory.
    spec fn remote_key(&self) -> u32;

    /// The remote access key.
    fn rkey(&self) -> (key: u32)
        ensures
            key == self.remote_key(),
    ;
}

} // verus!
