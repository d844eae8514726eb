//! Regions, the windows carved out of them, and the rules by which windows
//! are handed out and taken back.

use vstd::prelude::*;
use std::ops::Range;
use crate::error::RegionError;
use crate::memory::{Extent, Layout, RdmaLocalMemory, RdmaMemory};
use crate::range::{
    ByteRange, RangeSet, insert_outcome, is_first_fit, is_free, lemma_with_range, well_placed,
    with_range,
};
use crate::remote::RemoteMemoryRegion;

verus! {

/// What a region is, as far as its contracts are concerned.
pub struct RegionView {
    /// The bytes of the region.
    pub extent: Extent,
    /// The key under which this side reaches the region: the local access
    /// key in a tree of local memory, the remote access key in a tree of a
    /// peer's memory.
    pub key: u32,
    /// The key under which a peer reaches the region.
    pub rkey: u32,
    /// Whether the memory is this host's own.
    pub local: bool,
    /// The bytes of the region this one was carved out of; `None` for a root.
    pub parent: Option<Extent>,
    /// The bytes of the root of the tree; a root is its own root.
    pub root: Extent,
    /// The ranges currently carved out, relative to `extent.addr`, ascending.
    pub occupied: Seq<ByteRange>,
}

impl RegionView {
    /// The region has a parent.
    pub open spec fn is_node(self) -> bool {
        self.parent is Some
    }

    /// The region ends inside the address space, its windows are in order,
    /// disjoint and inside it, and it lies inside its parent, which lies
    /// inside the root.
    pub open spec fn wf(self) -> bool {
        &&& self.extent.end() <= usize::MAX
        &&& self.root.end() <= usize::MAX
        &&& self.root.encloses(self.extent)
        &&& well_placed(self.occupied, self.extent.length)
        &&& match self.parent {
            None => self.root == self.extent,
            Some(parent) => {
                &&& self.extent.length > 0
                &&& self.root.encloses(parent)
                &&& parent.encloses(self.extent)
            },
        }
        &&& !self.local ==> self.key == self.rkey
    }

    /// The bytes that `range`, relative to this region, stands for.
    pub open spec fn window(self, range: ByteRange) -> Extent {
        Extent {
            addr: (self.extent.addr + range.start) as usize,
            length: (range.end - range.start) as usize,
        }
    }

    /// The range, relative to this region, that the bytes `inner` make up.
    pub open spec fn range_of(self, inner: Extent) -> ByteRange {
        ByteRange {
            start: (inner.addr - self.extent.addr) as usize,
            end: (inner.addr - self.extent.addr + inner.length) as usize,
        }
    }

    /// The window that carving `range` out of this region yields: it has
    /// the region's keys and locality, the region as parent, the region's
    /// root as root, and nothing carved out of it yet.
    pub open spec fn child(self, range: ByteRange) -> RegionView {
        RegionView {
            extent: self.window(range),
            key: self.key,
            rkey: self.rkey,
            local: self.local,
            parent: Some(self.extent),
            root: self.root,
            occupied: Seq::empty(),
        }
    }

    /// This region with `occupied` as the ranges carved out.
    pub open spec fn with_occupied(self, occupied: Seq<ByteRange>) -> RegionView {
        RegionView { occupied, ..self }
    }

    /// `child` is a live window of this region: it was carved out of it and
    /// its range is still recorded.
    pub open spec fn holds(self, child: RegionView) -> bool {
        &&& child.parent == Some(self.extent)
        &&& child.root == self.root
        &&& child.local == self.local
        &&& child.key == self.key
        &&& child.rkey == self.rkey
        &&& self.extent.encloses(child.extent)
        &&& self.occupied.contains(self.range_of(child.extent))
    }

    /// `bytes` have no byte in common with any live window of this region.
    pub open spec fn clear_of_windows(self, bytes: Extent) -> bool {
        forall|i: int|
            0 <= i < self.occupied.len() ==> self.window(#[trigger] self.occupied[i]).disjoint_from(
                bytes,
            )
    }

    /// Carving `range` out of this region yields `child` and leaves
    /// `after`: the child is the window that `range` stands for, it lies
    /// inside this region and has no byte in common with any window that
    /// was live, and `after` is this region with `range` recorded, of which
    /// the child is a live window.
    pub open spec fn carves(self, range: ByteRange, child: RegionView, after: RegionView) -> bool {
        &&& child == self.child(range)
        &&& child.wf()
        &&& self.extent.encloses(child.extent)
        &&& self.clear_of_windows(child.extent)
        &&& after == self.with_occupied(with_range(self.occupied, range))
        &&& after.wf()
        &&& after.holds(child)
    }

    /// What a peer is told about the region.
    pub open spec fn descriptor(self) -> RemoteMemoryRegion {
        RemoteMemoryRegion { addr: self.extent.addr, len: self.extent.length, rkey: self.rkey }
    }

    /// A freshly registered buffer of this host.
    pub open spec fn local_root(addr: usize, length: usize, lkey: u32, rkey: u32) -> RegionView {
        RegionView {
            extent: Extent { addr, length },
            key: lkey,
            rkey,
            local: true,
            parent: None,
            root: Extent { addr, length },
            occupied: Seq::empty(),
        }
    }

    /// A peer's buffer, as its descriptor tells of it.
    pub open spec fn remote_root(descriptor: RemoteMemoryRegion) -> RegionView {
        RegionView {
            extent: Extent { addr: descriptor.addr, length: descriptor.len },
            key: descriptor.rkey,
            rkey: descriptor.rkey,
            local: false,
            parent: None,
            root: Extent { addr: descriptor.addr, length: descriptor.len },
            occupied: Seq::empty(),
        }
    }
}

/// A valid, free range can be carved out of a well-formed region.
pub proof fn lemma_carves(region: RegionView, range: ByteRange)
    requires
        region.wf(),
        insert_outcome(region.occupied, region.extent.length, range) is Ok,
    ensures
        region.carves(
            range,
            region.child(range),
            region.with_occupied(with_range(region.occupied, range)),
        ),
{
    lemma_with_range(region.occupied, region.extent.length, range);
    let child = region.child(range);
    assert(region.range_of(child.extent) == range);
    assert forall|i: int| 0 <= i < region.occupied.len() implies region.window(
        #[trigger] region.occupied[i],
    ).disjoint_from(child.extent) by {
        assert(region.occupied[i].fits_within(region.extent.length));
        assert(!region.occupied[i].overlaps(range));
    }
}

/// Where a window sits: inside which parent, under which root.
#[derive(Debug)]
struct Node {
    parent: Extent,
    root: Extent,
}

/// What a region can be. This is fixed when the region is made.
#[derive(Debug)]
enum Kind {
    /// A buffer of this host, registered with the device.
    LocalRoot,
    /// A window of local memory.
    LocalNode(Node),
    /// A peer's buffer, known from its descriptor.
    RemoteRoot,
    /// A window of a peer's memory.
    RemoteNode(Node),
}

/// What is left to do once a root has been torn down.
#[derive(Clone, Copy, PartialEq, Eq, Structural, Debug)]
pub enum Teardown {
    /// The root was a registered buffer: take the registration back from
    /// the device and free the buffer.
    Deregister,
    /// The root described a peer's memory: nothing is held for it here.
    Forget,
}

/// A region of device-visible memory: a root, or a window carved out of
/// another region.
#[derive(Debug)]
pub struct MemoryRegion {
    addr: usize,
    length: usize,
    key: u32,
    rkey: u32,
    kind: Kind,
    sub: RangeSet,
}

impl View for MemoryRegion {
    type V = RegionView;

    closed spec fn view(&self) -> RegionView {
        let own = Extent { addr: self.addr, length: self.length };
        RegionView {
            extent: own,
            key: self.key,
            rkey: self.rkey,
            local: self.kind is LocalRoot || self.kind is LocalNode,
            parent: match self.kind {
                Kind::LocalNode(node) | Kind::RemoteNode(node) => Some(node.parent),
                Kind::LocalRoot | Kind::RemoteRoot => None,
            },
            root: match self.kind {
                Kind::LocalNode(node) | Kind::RemoteNode(node) => node.root,
                Kind::LocalRoot | Kind::RemoteRoot => own,
            },
            occupied: self.sub@,
        }
    }
}

impl MemoryRegion {
    #[verifier::type_invariant]
    spec fn inv(&self) -> bool {
        &&& self@.wf()
        &&& self.sub.limit_spec() == self.length
    }

    /// Takes a buffer that the device has registered as the root of a tree
    /// of local memory: `addr` and `length` are where the buffer is, `lkey`
    /// and `rkey` the keys the device issued for it. A buffer that would
    /// reach past the end of the address space is refused.
    pub fn new(addr: usize, length: usize, lkey: u32, rkey: u32) -> (res: Result<
        MemoryRegion,
        RegionError,
    >)
        ensures
            match res {
                Ok(region) => {
                    &&& addr + length <= usize::MAX
                    &&& region@ == RegionView::local_root(addr, length, lkey, rkey)
                    &&& region@.wf()
                },
                Err(e) => addr + length > usize::MAX && e == RegionError::InvalidRange,
            },
    {
        if length > usize::MAX - addr {
            return Err(RegionError::InvalidRange);
        }
        Ok(
            MemoryRegion {
                addr,
                length,
                key: lkey,
                rkey,
                kind: Kind::LocalRoot,
                sub: RangeSet::new(length),
            },
        )
    }

    /// Takes a peer's descriptor as the root of a tree of remote memory.
    /// A descriptor whose bytes would reach past the end of the address
    /// space is refused.
    pub fn from_remote(descriptor: RemoteMemoryRegion) -> (res: Result<MemoryRegion, RegionError>)
        ensures
            match res {
                Ok(region) => {
                    &&& descriptor.addr + descriptor.len <= usize::MAX
                    &&& region@ == RegionView::remote_root(descriptor)
                    &&& region@.wf()
                },
                Err(e) => descriptor.addr + descriptor.len > usize::MAX && e
                    == RegionError::InvalidRange,
            },
    {
        if descriptor.len > usize::MAX - descriptor.addr {
            return Err(RegionError::InvalidRange);
        }
        Ok(
            MemoryRegion {
                addr: descriptor.addr,
                length: descriptor.len,
                key: descriptor.rkey,
                rkey: descriptor.rkey,
                kind: Kind::RemoteRoot,
                sub: RangeSet::new(descriptor.len),
            },
        )
    }

    /// Whether the region is a window of another region.
    pub fn is_node(&self) -> (node: bool)
        ensures
            node == self@.is_node(),
    {
        match &self.kind {
            Kind::LocalNode(_) | Kind::RemoteNode(_) => true,
            Kind::LocalRoot | Kind::RemoteRoot => false,
        }
    }

    /// Whether the region is memory of this host.
    pub fn is_local(&self) -> (local: bool)
        ensures
            local == self@.local,
    {
        match &self.kind {
            Kind::LocalRoot | Kind::LocalNode(_) => true,
            Kind::RemoteRoot | Kind::RemoteNode(_) => false,
        }
    }

    /// The bytes of the root of the tree the region belongs to.
    pub fn root(&self) -> (root: Extent)
        ensures
            root == self@.root,
    {
        match &self.kind {
            Kind::LocalNode(node) | Kind::RemoteNode(node) => node.root,
            Kind::LocalRoot | Kind::RemoteRoot => Extent { addr: self.addr, length: self.length },
        }
    }

    /// The bytes of the region this one was carved out of, if it is a window.
    pub fn parent(&self) -> (parent: Option<Extent>)
        ensures
            parent == self@.parent,
    {
        match &self.kind {
            Kind::LocalNode(node) | Kind::RemoteNode(node) => Some(node.parent),
            Kind::LocalRoot | Kind::RemoteRoot => None,
        }
    }

    /// The key under which a peer reaches the region.
    pub fn rkey(&self) -> (key: u32)
        ensures
            key == self@.rkey,
    {
        self.rkey
    }

    /// The ranges currently carved out of the region, relative to its
    /// address and ascending by start.
    pub fn occupied(&self) -> (ranges: Vec<ByteRange>)
        ensures
            ranges@ == self@.occupied,
    {
        self.sub.ranges()
    }

    /// What a peer needs in order to address the region: its address, its
    /// length and its remote key, as the accessors give them.
    pub fn remote_mr(&self) -> (descriptor: RemoteMemoryRegion)
        ensures
            descriptor == self@.descriptor(),
    {
        RemoteMemoryRegion { addr: self.addr(), len: self.length(), rkey: self.rkey() }
    }

    /// Carves `range`, relative to this region, out of it. The range must
    /// be non-empty, end inside the region and touch no window that is
    /// live; the request is checked and recorded in one step, and a
    /// refused request changes nothing.
    pub fn slice(&mut self, range: Range<usize>) -> (res: Result<MemoryRegion, RegionError>)
        ensures
            final(self)@.wf(),
            ({
                let before = old(self)@;
                let asked = ByteRange { start: range.start, end: range.end };
                match (res, insert_outcome(before.occupied, before.extent.length, asked)) {
                    (Ok(child), Ok(_)) => before.carves(asked, child@, final(self)@),
                    (Err(e), Err(expected)) => e == expected && final(self)@ == before,
                    _ => false,
                }
            }),
    {
        proof {
            use_type_invariant(&*self);
        }
        let asked = ByteRange { start: range.start, end: range.end };
        let mut sub = RangeSet::new(self.length);
        std::mem::swap(&mut sub, &mut self.sub);
        let outcome = sub.insert(asked);
        self.sub = sub;
        proof {
            if outcome is Ok {
                lemma_carves(old(self)@, asked);
            }
        }
        match outcome {
            Err(e) => Err(e),
            Ok(()) => {
                let node = Node {
                    parent: Extent { addr: self.addr, length: self.length },
                    root: self.root(),
                };
                let kind = if self.is_local() {
                    Kind::LocalNode(node)
                } else {
                    Kind::RemoteNode(node)
                };
                let length: usize = asked.end - asked.start;
                Ok(
                    MemoryRegion {
                        addr: self.addr + asked.start,
                        length,
                        key: self.key,
                        rkey: self.rkey,
                        kind,
                        sub: RangeSet::new(length),
                    },
                )
            },
        }
    }

    /// Carves the lowest free gap of `layout.size` bytes out of this
    /// region. The alignment asked for is not taken into account. A request
    /// for no bytes at all is an invalid range; one that no gap can hold
    /// finds the region out of space.
    pub fn allocate(&mut self, layout: Layout) -> (res: Result<MemoryRegion, RegionError>)
        ensures
            final(self)@.wf(),
            ({
                let before = old(self)@;
                match res {
                    Ok(child) => {
                        let start = child@.extent.addr - before.extent.addr;
                        let granted = ByteRange {
                            start: start as usize,
                            end: (start + layout.size) as usize,
                        };
                        &&& layout.size > 0
                        &&& is_first_fit(
                            before.occupied,
                            before.extent.length,
                            start,
                            layout.size as int,
                        )
                        &&& before.carves(granted, child@, final(self)@)
                    },
                    Err(e) => {
                        &&& final(self)@ == before
                        &&& if layout.size == 0 {
                            e == RegionError::InvalidRange
                        } else {
                            &&& e == RegionError::OutOfSpace
                            &&& forall|start: int|
                                !#[trigger] is_free(
                                    before.occupied,
                                    before.extent.length,
                                    start,
                                    layout.size as int,
                                )
                        }
                    },
                }
            }),
    {
        proof {
            use_type_invariant(&*self);
        }
        match self.sub.first_fit(layout.size) {
            None => {
                assert(layout.size > 0) by {
                    assert(is_free(self@.occupied, self@.extent.length, 0, 0));
                }
                Err(RegionError::OutOfSpace)
            },
            Some(gap) => self.slice(gap.start..gap.end),
        }
    }

    /// Takes the window `child` back into this region, which forgets the
    /// range it stood for; the range is free again afterwards. A window
    /// that still has windows of its own, or that is not a live window of
    /// this region, is handed back untouched together with the reason.
    pub fn release(&mut self, child: MemoryRegion) -> (res: Result<
        (),
        (RegionError, MemoryRegion),
    >)
        ensures
            final(self)@.wf(),
            ({
                let before = old(self)@;
                match res {
                    Ok(_) => {
                        &&& child@.occupied.len() == 0
                        &&& before.holds(child@)
                        &&& final(self)@ == before.with_occupied(
                            before.occupied.remove_value(before.range_of(child@.extent)),
                        )
                    },
                    Err((e, back)) => {
                        &&& back == child
                        &&& final(self)@ == before
                        &&& e == if child@.occupied.len() > 0 {
                            RegionError::LiveChildren
                        } else {
                            RegionError::NotAChild
                        }
                        &&& child@.occupied.len() > 0 || !before.holds(child@)
                    },
                }
            }),
    {
        proof {
            use_type_invariant(&*self);
            use_type_invariant(&child);
        }
        if !child.sub.is_empty() {
            return Err((RegionError::LiveChildren, child));
        }
        let own = Extent { addr: self.addr, length: self.length };
        let related = match &child.kind {
            Kind::LocalNode(node) => self.is_local() && node.parent == own && node.root
                == self.root(),
            Kind::RemoteNode(node) => !self.is_local() && node.parent == own && node.root
                == self.root(),
            Kind::LocalRoot | Kind::RemoteRoot => false,
        };
        if !related || child.key != self.key || child.rkey != self.rkey {
            return Err((RegionError::NotAChild, child));
        }
        let start: usize = child.addr - self.addr;
        let range = ByteRange { start, end: start + child.length };
        let mut sub = RangeSet::new(self.length);
        std::mem::swap(&mut sub, &mut self.sub);
        let found = sub.remove(range);
        self.sub = sub;
        proof {
            old(self)@.occupied.index_of_first_ensures(range);
        }
        if found {
            Ok(())
        } else {
            Err((RegionError::NotAChild, child))
        }
    }

    /// Tears a root down. A region that still has live windows cannot go
    /// away, and a window is given back to its parent instead; either is
    /// handed back untouched together with the reason. Otherwise the root
    /// is gone, and the result says what is left to do about the device.
    pub fn destroy(self) -> (res: Result<Teardown, (RegionError, MemoryRegion)>)
        ensures
            match res {
                Ok(teardown) => {
                    &&& self@.occupied.len() == 0
                    &&& !self@.is_node()
                    &&& teardown == if self@.local {
                        Teardown::Deregister
                    } else {
                        Teardown::Forget
                    }
                },
                Err((e, back)) => {
                    &&& back == self
                    &&& self@.occupied.len() > 0 || self@.is_node()
                    &&& e == if self@.occupied.len() > 0 {
                        RegionError::LiveChildren
                    } else {
                        RegionError::NotARoot
                    }
                },
            },
    {
        if !self.sub.is_empty() {
            return Err((RegionError::LiveChildren, self));
        }
        match &self.kind {
            Kind::LocalRoot => Ok(Teardown::Deregister),
            Kind::RemoteRoot => Ok(Teardown::Forget),
            Kind::LocalNode(_) | Kind::RemoteNode(_) => Err((RegionError::NotARoot, self)),
        }
    }
}

impl RdmaMemory for MemoryRegion {
    open spec fn extent(&self) -> Extent {
        self@.extent
    }

    fn addr(&self) -> (addr: usize) {
        self.addr
    }

    fn length(&self) -> (length: usize) {
        self.length
    }
}

impl RdmaLocalMemory for MemoryRegion {
    open spec fn local_key(&self) -> u32 {
        self@.key
    }

    fn lkey(&self) -> (key: u32) {
        self.key
    }
}

} // verus!
