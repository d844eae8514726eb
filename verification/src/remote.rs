//! The descriptor a peer needs in order to address a region.

use vstd::prelude::*;
use crate::memory::{Extent, RdmaMemory, RdmaRemoteMemory};

verus! {

/// Address, length and remote key of a region, in the order and with the
/// widths in which they are exchanged with a peer. It is a snapshot: it
/// stays what it is when the region it was taken from goes away.
#[derive(Clone, Copy, PartialEq, Eq, Structural, Debug)]
pub struct RemoteMemoryRegion {
    pub addr: usize,
    pub len: usize,
    pub rkey: u32,
}

impl RdmaMemory for RemoteMemoryRegion {
    open spec fn extent(&self) -> Extent {
        Extent { addr: self.addr, length: self.len }
    }

    fn addr(&self) -> (addr: usize) {
        self.addr
    }

    fn length(&self) -> (length: usize) {
        self.len
    }
}

impl RdmaRemoteMemory for RemoteMemoryRegion {
    open spec fn remote_key(&self) -> u32 {
        self.rkey
    }

    fn rkey(&self) -> (key: u32) {
        self.rkey
    }
}

} // verus!
