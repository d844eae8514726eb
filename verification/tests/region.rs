use rdma_region::{
    ByteRange, Extent, Layout, MemoryRegion, RdmaLocalMemory, RdmaMemory, RdmaRemoteMemory,
    RegionError, RemoteMemoryRegion, Teardown,
};

const BASE: usize = 0x1000;
const LKEY: u32 = 0x11;
const RKEY: u32 = 0x22;

fn local_root(length: usize) -> MemoryRegion {
    MemoryRegion::new(BASE, length, LKEY, RKEY).unwrap()
}

fn span(start: usize, end: usize) -> ByteRange {
    ByteRange { start, end }
}

#[test]
fn mr_slice() {
    let mut mr = local_root(128);
    let sub = mr.slice(0..64).unwrap();
    assert_eq!(mr.addr(), sub.addr());
    assert_eq!(sub.length(), 64);
    let refused = mr.slice(0..64).err().unwrap();
    assert_eq!(refused, RegionError::Overlap);
    let sub = mr.slice(64..128).unwrap();
    assert_eq!(sub.addr(), BASE + 64);
    assert_eq!(sub.length(), 64);
}

#[test]
fn mr_alloc() {
    let mut mr = local_root(128);
    let sub = mr.allocate(Layout::new(128, 8)).unwrap();
    mr.release(sub).unwrap();
    let _sub = mr.allocate(Layout::new(128, 8)).unwrap();
    let refused = mr.allocate(Layout::new(128, 8)).err().unwrap();
    assert_eq!(refused, RegionError::OutOfSpace);
}

#[test]
fn root_of_registered_buffer() {
    let mr = local_root(128);
    assert!(mr.is_local());
    assert!(!mr.is_node());
    assert_eq!(mr.addr(), BASE);
    assert_eq!(mr.length(), 128);
    assert_eq!(mr.lkey(), LKEY);
    assert_eq!(mr.rkey(), RKEY);
    assert_eq!(mr.parent(), None);
    assert_eq!(mr.root(), Extent { addr: BASE, length: 128 });
    assert!(mr.occupied().is_empty());
}

#[test]
fn root_past_the_address_space_is_refused() {
    assert_eq!(
        MemoryRegion::new(usize::MAX, 1, LKEY, RKEY).err().unwrap(),
        RegionError::InvalidRange
    );
    assert_eq!(
        MemoryRegion::new(usize::MAX - 7, 9, LKEY, RKEY).err().unwrap(),
        RegionError::InvalidRange
    );
    let edge = MemoryRegion::new(usize::MAX - 8, 8, LKEY, RKEY).unwrap();
    assert_eq!(edge.addr(), usize::MAX - 8);
    assert_eq!(edge.length(), 8);
    let told = RemoteMemoryRegion { addr: usize::MAX, len: 2, rkey: 5 };
    assert_eq!(MemoryRegion::from_remote(told).err().unwrap(), RegionError::InvalidRange);
}

#[test]
fn empty_root_has_no_room() {
    let mut mr = local_root(0);
    assert_eq!(mr.slice(0..0).err().unwrap(), RegionError::InvalidRange);
    assert_eq!(mr.slice(0..1).err().unwrap(), RegionError::InvalidRange);
    assert_eq!(mr.allocate(Layout::new(1, 1)).err().unwrap(), RegionError::OutOfSpace);
    assert_eq!(mr.destroy().unwrap(), Teardown::Deregister);
}

#[test]
fn slice_refuses_invalid_ranges() {
    let mut mr = local_root(128);
    assert_eq!(mr.slice(10..10).err().unwrap(), RegionError::InvalidRange);
    assert_eq!(mr.slice(20..10).err().unwrap(), RegionError::InvalidRange);
    assert_eq!(mr.slice(0..129).err().unwrap(), RegionError::InvalidRange);
    assert_eq!(mr.slice(128..129).err().unwrap(), RegionError::InvalidRange);
    assert_eq!(mr.slice(200..100).err().unwrap(), RegionError::InvalidRange);
    assert!(mr.occupied().is_empty());
    let whole = mr.slice(0..128).unwrap();
    assert_eq!(whole.addr(), BASE);
    assert_eq!(whole.length(), 128);
}

#[test]
fn invalid_range_is_reported_before_overlap() {
    let mut mr = local_root(128);
    let _held = mr.slice(0..128).unwrap();
    assert_eq!(mr.slice(64..64).err().unwrap(), RegionError::InvalidRange);
    assert_eq!(mr.slice(64..200).err().unwrap(), RegionError::InvalidRange);
    assert_eq!(mr.slice(64..65).err().unwrap(), RegionError::Overlap);
}

#[test]
fn slice_refuses_every_way_of_overlapping() {
    let mut mr = local_root(128);
    let _held = mr.slice(32..64).unwrap();
    for (start, end) in [(32, 64), (0, 33), (63, 128), (40, 50), (0, 128), (31, 65)] {
        assert_eq!(mr.slice(start..end).err().unwrap(), RegionError::Overlap);
        assert_eq!(mr.occupied(), vec![span(32, 64)]);
    }
    let _below = mr.slice(0..32).unwrap();
    let _above = mr.slice(64..128).unwrap();
    assert_eq!(mr.occupied(), vec![span(0, 32), span(32, 64), span(64, 128)]);
}

#[test]
fn occupied_ranges_are_kept_ascending() {
    let mut mr = local_root(128);
    let _c = mr.slice(96..100).unwrap();
    let _a = mr.slice(0..8).unwrap();
    let _b = mr.slice(40..48).unwrap();
    let _d = mr.slice(100..128).unwrap();
    let _e = mr.slice(8..40).unwrap();
    assert_eq!(
        mr.occupied(),
        vec![span(0, 8), span(8, 40), span(40, 48), span(96, 100), span(100, 128)]
    );
}

#[test]
fn window_takes_after_its_parent() {
    let mut mr = local_root(128);
    let sub = mr.slice(16..48).unwrap();
    assert!(sub.is_node());
    assert!(sub.is_local());
    assert_eq!(sub.addr(), BASE + 16);
    assert_eq!(sub.length(), 32);
    assert_eq!(sub.lkey(), LKEY);
    assert_eq!(sub.rkey(), RKEY);
    assert_eq!(sub.parent(), Some(Extent { addr: BASE, length: 128 }));
    assert_eq!(sub.root(), Extent { addr: BASE, length: 128 });
    assert!(sub.occupied().is_empty());
}

#[test]
fn window_of_a_window() {
    let mut mr = local_root(128);
    let mut sub = mr.slice(64..128).unwrap();
    let leaf = sub.slice(8..24).unwrap();
    assert_eq!(leaf.addr(), BASE + 64 + 8);
    assert_eq!(leaf.length(), 16);
    assert_eq!(leaf.parent(), Some(Extent { addr: BASE + 64, length: 64 }));
    assert_eq!(leaf.root(), Extent { addr: BASE, length: 128 });
    assert_eq!(leaf.lkey(), LKEY);
    assert_eq!(sub.occupied(), vec![span(8, 24)]);
    assert_eq!(mr.occupied(), vec![span(64, 128)]);
    assert_eq!(sub.slice(0..65).err().unwrap(), RegionError::InvalidRange);
}

#[test]
fn windows_stay_inside_and_apart() {
    let mut mr = local_root(100);
    let mut live = Vec::new();
    for (start, end) in [(90, 100), (0, 10), (50, 60), (5, 15), (10, 50), (60, 91), (60, 90)] {
        if let Ok(sub) = mr.slice(start..end) {
            live.push(sub);
        }
    }
    assert_eq!(live.len(), 5);
    for sub in &live {
        assert!(mr.addr() <= sub.addr());
        assert!(sub.addr() + sub.length() <= mr.addr() + mr.length());
    }
    for i in 0..live.len() {
        for j in 0..i {
            let (a, b) = (&live[i], &live[j]);
            assert!(a.addr() + a.length() <= b.addr() || b.addr() + b.length() <= a.addr());
        }
    }
}

#[test]
fn allocate_takes_the_lowest_gap_that_fits() {
    let mut mr = local_root(64);
    let _a = mr.slice(0..16).unwrap();
    let _b = mr.slice(32..48).unwrap();
    let first = mr.allocate(Layout::new(16, 8)).unwrap();
    assert_eq!(first.addr(), BASE + 16);
    assert_eq!(first.length(), 16);
    let second = mr.allocate(Layout::new(16, 8)).unwrap();
    assert_eq!(second.addr(), BASE + 48);
    assert_eq!(mr.allocate(Layout::new(1, 1)).err().unwrap(), RegionError::OutOfSpace);
    assert_eq!(
        mr.occupied(),
        vec![span(0, 16), span(16, 32), span(32, 48), span(48, 64)]
    );
}

#[test]
fn allocate_skips_gaps_that_are_too_small() {
    let mut mr = local_root(100);
    let _a = mr.slice(10..20).unwrap();
    let _b = mr.slice(25..40).unwrap();
    let big = mr.allocate(Layout::new(11, 1)).unwrap();
    assert_eq!(big.addr(), BASE + 40);
    let exact = mr.allocate(Layout::new(10, 1)).unwrap();
    assert_eq!(exact.addr(), BASE);
    let small = mr.allocate(Layout::new(5, 1)).unwrap();
    assert_eq!(small.addr(), BASE + 20);
    assert_eq!(mr.allocate(Layout::new(50, 1)).err().unwrap(), RegionError::OutOfSpace);
    let tail = mr.allocate(Layout::new(49, 1)).unwrap();
    assert_eq!(tail.addr(), BASE + 51);
    assert_eq!(tail.length(), 49);
}

#[test]
fn allocate_ignores_the_alignment() {
    let mut mr = local_root(64);
    let _odd = mr.slice(0..3).unwrap();
    let sub = mr.allocate(Layout::new(8, 64)).unwrap();
    assert_eq!(sub.addr(), BASE + 3);
}

#[test]
fn allocate_of_nothing_is_an_invalid_range() {
    let mut mr = local_root(64);
    assert_eq!(mr.allocate(Layout::new(0, 8)).err().unwrap(), RegionError::InvalidRange);
    let _all = mr.slice(0..64).unwrap();
    assert_eq!(mr.allocate(Layout::new(0, 8)).err().unwrap(), RegionError::InvalidRange);
    assert_eq!(mr.occupied(), vec![span(0, 64)]);
}

#[test]
fn allocate_beyond_the_region_is_out_of_space() {
    let mut mr = local_root(64);
    assert_eq!(mr.allocate(Layout::new(65, 1)).err().unwrap(), RegionError::OutOfSpace);
    assert_eq!(mr.allocate(Layout::new(usize::MAX, 1)).err().unwrap(), RegionError::OutOfSpace);
    let _a = mr.slice(1..2).unwrap();
    assert_eq!(mr.allocate(Layout::new(usize::MAX, 1)).err().unwrap(), RegionError::OutOfSpace);
    assert_eq!(mr.allocate(Layout::new(63, 1)).err().unwrap(), RegionError::OutOfSpace);
    assert_eq!(mr.allocate(Layout::new(62, 1)).unwrap().addr(), BASE + 2);
}

#[test]
fn release_frees_the_range_for_reuse() {
    let mut mr = local_root(128);
    let a = mr.slice(0..64).unwrap();
    let b = mr.slice(64..128).unwrap();
    mr.release(a).unwrap();
    assert_eq!(mr.occupied(), vec![span(64, 128)]);
    let again = mr.slice(0..64).unwrap();
    assert_eq!(again.addr(), BASE);
    mr.release(b).unwrap();
    mr.release(again).unwrap();
    assert!(mr.occupied().is_empty());
}

#[test]
fn release_undoes_the_slice() {
    let mut mr = local_root(128);
    let _a = mr.slice(0..16).unwrap();
    let _b = mr.slice(100..128).unwrap();
    let before = mr.occupied();
    let sub = mr.slice(40..60).unwrap();
    assert_ne!(mr.occupied(), before);
    mr.release(sub).unwrap();
    assert_eq!(mr.occupied(), before);
}

#[test]
fn release_refuses_a_window_with_windows() {
    let mut mr = local_root(128);
    let mut sub = mr.slice(0..64).unwrap();
    let leaf = sub.slice(0..8).unwrap();
    let (why, mut sub) = mr.release(sub).err().unwrap();
    assert_eq!(why, RegionError::LiveChildren);
    assert_eq!(sub.occupied(), vec![span(0, 8)]);
    assert_eq!(mr.occupied(), vec![span(0, 64)]);
    sub.release(leaf).unwrap();
    mr.release(sub).unwrap();
    assert!(mr.occupied().is_empty());
}

#[test]
fn release_refuses_a_stranger() {
    let mut mr = local_root(128);
    let mut other = MemoryRegion::new(BASE, 128, LKEY, RKEY + 1).unwrap();
    let theirs = other.slice(0..64).unwrap();
    let _mine = mr.slice(0..64).unwrap();
    let (why, theirs) = mr.release(theirs).err().unwrap();
    assert_eq!(why, RegionError::NotAChild);
    assert_eq!(mr.occupied(), vec![span(0, 64)]);
    other.release(theirs).unwrap();

    let root = local_root(16);
    let (why, root) = mr.release(root).err().unwrap();
    assert_eq!(why, RegionError::NotAChild);
    assert_eq!(root.length(), 16);
}

#[test]
fn release_refuses_a_grandchild() {
    let mut mr = local_root(128);
    let mut sub = mr.slice(0..64).unwrap();
    let leaf = sub.slice(0..64).unwrap();
    let (why, leaf) = mr.release(leaf).err().unwrap();
    assert_eq!(why, RegionError::NotAChild);
    assert_eq!(mr.occupied(), vec![span(0, 64)]);
    sub.release(leaf).unwrap();
}

#[test]
fn release_refuses_a_window_of_the_other_side() {
    let told = RemoteMemoryRegion { addr: BASE, len: 128, rkey: RKEY };
    let mut remote = MemoryRegion::from_remote(told).unwrap();
    let mut local = MemoryRegion::new(BASE, 128, RKEY, RKEY).unwrap();
    let far = remote.slice(0..64).unwrap();
    let _near = local.slice(0..64).unwrap();
    let (why, far) = local.release(far).err().unwrap();
    assert_eq!(why, RegionError::NotAChild);
    remote.release(far).unwrap();
}

#[test]
fn root_waits_for_its_windows() {
    let mut mr = local_root(128);
    let sub = mr.slice(0..64).unwrap();
    let (why, mut mr) = mr.destroy().err().unwrap();
    assert_eq!(why, RegionError::LiveChildren);
    assert_eq!(mr.occupied(), vec![span(0, 64)]);
    mr.release(sub).unwrap();
    assert_eq!(mr.destroy().unwrap(), Teardown::Deregister);
}

#[test]
fn remote_root_holds_nothing_of_the_device() {
    let told = RemoteMemoryRegion { addr: 0x9000, len: 256, rkey: 77 };
    let mr = MemoryRegion::from_remote(told).unwrap();
    assert_eq!(mr.destroy().unwrap(), Teardown::Forget);
}

#[test]
fn window_is_not_torn_down() {
    let mut mr = local_root(128);
    let sub = mr.slice(0..64).unwrap();
    let (why, mut sub) = sub.destroy().err().unwrap();
    assert_eq!(why, RegionError::NotARoot);
    let leaf = sub.slice(0..1).unwrap();
    let (why, mut sub) = sub.destroy().err().unwrap();
    assert_eq!(why, RegionError::LiveChildren);
    sub.release(leaf).unwrap();
    mr.release(sub).unwrap();
}

#[test]
fn descriptor_matches_the_accessors() {
    let mut mr = local_root(128);
    let mut sub = mr.slice(32..96).unwrap();
    let leaf = sub.slice(1..2).unwrap();
    for region in [&mr, &sub, &leaf] {
        let told = region.remote_mr();
        assert_eq!(told.addr, region.addr());
        assert_eq!(told.len, region.length());
        assert_eq!(told.rkey, region.rkey());
    }
    assert_eq!(mr.remote_mr(), RemoteMemoryRegion { addr: BASE, len: 128, rkey: RKEY });
    assert_eq!(sub.remote_mr(), RemoteMemoryRegion { addr: BASE + 32, len: 64, rkey: RKEY });
    assert_eq!(leaf.remote_mr(), RemoteMemoryRegion { addr: BASE + 33, len: 1, rkey: RKEY });
}

#[test]
fn remote_tree_mirrors_a_local_one() {
    let told = RemoteMemoryRegion { addr: 0x9000, len: 256, rkey: 77 };
    let mut mr = MemoryRegion::from_remote(told).unwrap();
    assert!(!mr.is_local());
    assert!(!mr.is_node());
    assert_eq!(mr.remote_mr(), told);
    assert_eq!(mr.lkey(), 77);
    let sub = mr.allocate(Layout::new(100, 4)).unwrap();
    assert!(!sub.is_local());
    assert!(sub.is_node());
    assert_eq!(sub.remote_mr(), RemoteMemoryRegion { addr: 0x9000, len: 100, rkey: 77 });
    let next = mr.allocate(Layout::new(100, 4)).unwrap();
    assert_eq!(next.remote_mr(), RemoteMemoryRegion { addr: 0x9000 + 100, len: 100, rkey: 77 });
    assert_eq!(mr.allocate(Layout::new(100, 4)).err().unwrap(), RegionError::OutOfSpace);
}

#[test]
fn descriptor_outlives_its_region() {
    let mut mr = local_root(128);
    let sub = mr.slice(8..16).unwrap();
    let told = sub.remote_mr();
    mr.release(sub).unwrap();
    assert_eq!(mr.destroy().unwrap(), Teardown::Deregister);
    assert_eq!(told.addr(), BASE + 8);
    assert_eq!(told.length(), 8);
    assert_eq!(RdmaRemoteMemory::rkey(&told), RKEY);
}

#[test]
fn equal_windows_fill_the_root_exactly() {
    let mut mr = local_root(128);
    let mut live = Vec::new();
    for slot in 0..8 {
        let sub = mr.allocate(Layout::new(16, 8)).unwrap();
        assert_eq!(sub.addr(), BASE + 16 * slot);
        assert_eq!(sub.length(), 16);
        live.push(sub);
    }
    assert_eq!(mr.allocate(Layout::new(16, 8)).err().unwrap(), RegionError::OutOfSpace);
    let freed = live.remove(3);
    mr.release(freed).unwrap();
    let again = mr.allocate(Layout::new(16, 8)).unwrap();
    assert_eq!(again.addr(), BASE + 48);
    assert_eq!(mr.allocate(Layout::new(16, 8)).err().unwrap(), RegionError::OutOfSpace);
}
