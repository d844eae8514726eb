//! Bookkeeping for memory regions registered with an RDMA-capable device.
//!
//! A registered buffer (a *root*) is carved into independently-lived,
//! pairwise-disjoint windows (*nodes*). Each region records which of its
//! bytes are currently handed out; a window is given back explicitly, and a
//! root can only be torn down once nothing is carved out of it any more.
//!
//! Every operation that changes a region takes it by `&mut`, so the check
//! for overlap and the insertion that follows it are one indivisible step:
//! callers that share a region between threads put it behind one lock and
//! hold that lock across the call.

pub mod error;
pub mod laws;
pub mod memory;
pub mod range;
pub mod region;
pub mod remote;

pub use error::RegionError;
pub use memory::{Extent, Layout, RdmaLocalMemory, RdmaMemory, RdmaRemoteMemory};
pub use range::{ByteRange, RangeSet};
pub use region::{MemoryRegion, RegionView, Teardown};
pub use remote::RemoteMemoryRegion;
