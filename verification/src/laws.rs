//! What holds of regions and their windows whatever is asked of them.

use vstd::prelude::*;
use vstd::arithmetic::mul::lemma_mul_inequality;
use crate::range::{
    ByteRange, insert_outcome, is_first_fit, is_free, lemma_recorded_apart, lemma_starts_below,
    lemma_with_range, lemma_with_then_without, lemma_without_range, overlaps_any, well_placed,
    with_range,
};
use crate::region::RegionView;
use crate::remote::RemoteMemoryRegion;

verus! {

/// A window lies inside the region it is carved out of and inside the root
/// of the tree: carving a valid range out of a well-formed region yields a
/// well-formed window that starts at the region's address plus the start
/// of the range, is as long as the range, and does not reach outside the
/// region or the root.
pub proof fn window_within_parent(parent: RegionView, range: ByteRange)
    requires
        parent.wf(),
        range.fits_within(parent.extent.length),
    ensures
        parent.child(range).wf(),
        parent.child(range).extent.addr == parent.extent.addr + range.start,
        parent.child(range).extent.length == range.end - range.start,
        parent.extent.addr <= parent.child(range).extent.addr,
        parent.child(range).extent.end() <= parent.extent.end(),
        parent.root.encloses(parent.child(range).extent),
{
}

/// Every well-formed window lies inside its parent, and parent and window
/// lie inside the root.
pub proof fn node_within_parent(node: RegionView)
    requires
        node.wf(),
        node.is_node(),
    ensures
        node.parent->Some_0.addr <= node.extent.addr,
        node.extent.end() <= node.parent->Some_0.end(),
        node.root.encloses(node.parent->Some_0),
        node.root.encloses(node.extent),
{
}

/// Two live windows of one region are the same bytes or have no byte in
/// common.
pub proof fn live_windows_disjoint(parent: RegionView, a: RegionView, b: RegionView)
    requires
        parent.wf(),
        parent.holds(a),
        parent.holds(b),
        a.extent != b.extent,
    ensures
        a.extent.disjoint_from(b.extent),
{
    lemma_recorded_apart(
        parent.occupied,
        parent.extent.length,
        parent.range_of(a.extent),
        parent.range_of(b.extent),
    );
}

/// Carving a window out keeps what there was: the region stays well
/// formed, every window that was live is still live, the new window is
/// live, and it has no byte in common with any window that was live.
pub proof fn slice_keeps_windows(parent: RegionView, range: ByteRange, other: RegionView)
    requires
        parent.wf(),
        insert_outcome(parent.occupied, parent.extent.length, range) is Ok,
        parent.holds(other),
    ensures
        parent.with_occupied(with_range(parent.occupied, range)).wf(),
        parent.with_occupied(with_range(parent.occupied, range)).holds(other),
        parent.with_occupied(with_range(parent.occupied, range)).holds(parent.child(range)),
        parent.child(range).extent.disjoint_from(other.extent),
{
    lemma_with_range(parent.occupied, parent.extent.length, range);
    let taken = parent.range_of(other.extent);
    let i = choose|i: int| 0 <= i < parent.occupied.len() && parent.occupied[i] == taken;
    assert(parent.occupied[i].fits_within(parent.extent.length));
    assert(!parent.occupied[i].overlaps(range));
    assert(parent.range_of(parent.child(range).extent) == range);
}

/// Giving a window back keeps the others: the region stays well formed,
/// every other live window is still live, and the range given back can be
/// carved out again.
pub proof fn release_keeps_windows(parent: RegionView, child: RegionView, other: RegionView)
    requires
        parent.wf(),
        parent.holds(child),
        parent.holds(other),
        other.extent != child.extent,
    ensures
        parent.with_occupied(
            parent.occupied.remove_value(parent.range_of(child.extent)),
        ).wf(),
        parent.with_occupied(
            parent.occupied.remove_value(parent.range_of(child.extent)),
        ).holds(other),
        insert_outcome(
            parent.occupied.remove_value(parent.range_of(child.extent)),
            parent.extent.length,
            parent.range_of(child.extent),
        ) is Ok,
{
    let limit = parent.extent.length;
    let given = parent.range_of(child.extent);
    let kept = parent.range_of(other.extent);
    let after = parent.occupied.remove_value(given);
    lemma_without_range(parent.occupied, limit, given);
    assert(kept != given);
    lemma_recorded_apart(parent.occupied, limit, kept, given);
    assert(after.contains(kept));
    assert forall|j: int| 0 <= j < after.len() implies !(#[trigger] after[j]).overlaps(given) by {
        assert(after.contains(after[j]));
        lemma_recorded_apart(parent.occupied, limit, after[j], given);
    }
}

/// Giving back the window that was carved out last puts the region back
/// exactly as it was before, so what could be carved out then can be
/// carved out again.
pub proof fn release_undoes_slice(parent: RegionView, range: ByteRange)
    requires
        parent.wf(),
        insert_outcome(parent.occupied, parent.extent.length, range) is Ok,
    ensures
        parent.with_occupied(with_range(parent.occupied, range)).holds(parent.child(range)),
        parent.with_occupied(with_range(parent.occupied, range)).with_occupied(
            with_range(parent.occupied, range).remove_value(
                parent.with_occupied(with_range(parent.occupied, range)).range_of(
                    parent.child(range).extent,
                ),
            ),
        ) == parent,
{
    lemma_with_range(parent.occupied, parent.extent.length, range);
    lemma_with_then_without(parent.occupied, parent.extent.length, range);
    assert(parent.range_of(parent.child(range).extent) == range);
}

/// A region with a live window cannot be torn down, and once its only
/// window is given back it can: carving adds one range to those recorded,
/// and giving back the only one leaves none.
pub proof fn teardown_waits_for_windows(root: RegionView, range: ByteRange)
    requires
        root.wf(),
        insert_outcome(root.occupied, root.extent.length, range) is Ok,
    ensures
        with_range(root.occupied, range).len() > 0,
        root.occupied.len() == 0 ==> with_range(root.occupied, range).remove_value(range).len()
            == 0,
{
    lemma_with_range(root.occupied, root.extent.length, range);
    lemma_with_then_without(root.occupied, root.extent.length, range);
}

/// The descriptor of a region tells its address, its length and its
/// remote key; the descriptor of a window tells the window's bytes under
/// the key of the region it was carved out of; and a peer's memory taken
/// in from a descriptor gives that descriptor back.
pub proof fn descriptor_fidelity(region: RegionView, range: ByteRange, told: RemoteMemoryRegion)
    requires
        region.wf(),
        range.fits_within(region.extent.length),
    ensures
        region.descriptor().addr == region.extent.addr,
        region.descriptor().len == region.extent.length,
        region.descriptor().rkey == region.rkey,
        region.child(range).descriptor() == (RemoteMemoryRegion {
            addr: (region.extent.addr + range.start) as usize,
            len: (range.end - range.start) as usize,
            rkey: region.rkey,
        }),
        RegionView::remote_root(told).descriptor() == told,
        RegionView::local_root(told.addr, told.len, region.key, told.rkey).descriptor() == told,
{
}

/// `count` ranges of `size` bytes each, back to back from offset zero.
pub open spec fn packed(count: nat, size: usize) -> Seq<ByteRange> {
    Seq::new(
        count,
        |i: int| ByteRange { start: (i * size) as usize, end: ((i + 1) * size) as usize },
    )
}

/// The slot that follows `i` slots of `size` bytes begins where they end,
/// is `size` bytes long, and ends no later than slot `j` begins.
proof fn lemma_slots(i: int, j: int, size: int)
    requires
        0 <= i < j,
        size > 0,
    ensures
        0 <= i * size,
        (i + 1) * size == i * size + size,
        (i + 1) * size <= j * size,
{
    assert(0 <= i * size && (i + 1) * size == i * size + size && (i + 1) * size <= j * size)
        by (nonlinear_arith)
        requires
            0 <= i < j,
            size > 0,
    ;
}

/// The offset `start` lies in slot `start / size`.
proof fn lemma_slot_of(start: int, size: int)
    requires
        0 <= start,
        size > 0,
    ensures
        0 <= start / size,
        (start / size) * size <= start < (start / size + 1) * size,
{
    assert(0 <= start / size && (start / size) * size <= start < (start / size + 1) * size)
        by (nonlinear_arith)
        requires
            0 <= start,
            size > 0,
    ;
}

/// Equal windows fill a region exactly. In a region of `capacity * size`
/// bytes of which the first `taken` slots of `size` bytes are handed out,
/// the lowest free gap of `size` bytes is slot `taken` and taking it
/// leaves the first `taken + 1` slots handed out, as long as `taken` is
/// below `capacity`; once all `capacity` slots are handed out, no gap of
/// `size` bytes is left. Requests served one after the other, in whatever
/// order they arrive, therefore succeed `capacity` times with disjoint
/// windows and fail from then on.
pub proof fn equal_windows_fill_exactly(limit: usize, size: usize, capacity: nat, taken: nat)
    requires
        size > 0,
        capacity * size == limit,
        taken <= capacity,
    ensures
        well_placed(packed(taken, size), limit),
        taken < capacity ==> {
            let next = ByteRange {
                start: (taken * size) as usize,
                end: ((taken + 1) * size) as usize,
            };
            &&& next.start == taken * size
            &&& next.end == next.start + size
            &&& is_first_fit(packed(taken, size), limit, taken * size, size as int)
            &&& insert_outcome(packed(taken, size), limit, next) is Ok
            &&& with_range(packed(taken, size), next) == packed(taken + 1, size)
        },
        taken == capacity ==> forall|start: int|
            !#[trigger] is_free(packed(taken, size), limit, start, size as int),
{
    let slots = packed(taken, size);
    assert forall|i: int| 0 <= i < taken implies {
        &&& (#[trigger] slots[i]).start == i * size
        &&& slots[i].end == (i + 1) * size
        &&& slots[i].fits_within(limit)
    } by {
        lemma_slots(i, capacity as int + 1, size as int);
        if i + 1 < capacity {
            lemma_slots(i + 1, capacity as int, size as int);
        }
    }
    assert forall|i: int, j: int| 0 <= i < j < taken implies (#[trigger] slots[i]).end <= (
    #[trigger] slots[j]).start by {
        lemma_slots(i, j, size as int);
    }
    assert forall|start: int| 0 <= start < taken * size implies !#[trigger] is_free(
        slots,
        limit,
        start,
        size as int,
    ) by {
        lemma_slot_of(start, size as int);
        let i = start / (size as int);
        if i >= taken {
            lemma_mul_inequality(taken as int, i, size as int);
        }
        assert(slots[i].start <= start < slots[i].end);
    }
    if taken < capacity {
        lemma_slots(taken as int, capacity as int + 1, size as int);
        if taken + 1 < capacity {
            lemma_slots(taken as int + 1, capacity as int, size as int);
        }
        let next = ByteRange { start: (taken * size) as usize, end: ((taken + 1) * size) as usize };
        assert forall|i: int| 0 <= i < taken implies (#[trigger] slots[i]).end
            <= next.start by {
            lemma_slots(i, taken as int, size as int);
        }
        assert(is_free(slots, limit, taken * size, size as int));
        assert(!overlaps_any(slots, next));
        lemma_starts_below(slots, next.start, taken as int);
        assert(with_range(slots, next) =~= packed(taken + 1, size));
    } else {
        assert forall|start: int| !#[trigger] is_free(slots, limit, start, size as int) by {
            if 0 <= start && start + size <= limit {
                assert(start < taken * size);
            }
        }
    }
}

/// One thing that can be asked of a region.
pub enum Request {
    /// Carve this range out.
    Slice(ByteRange),
    /// Carve the lowest free gap of this many bytes out.
    Allocate(usize),
    /// Take the window that stands for this range back.
    Release(ByteRange),
}

/// Some gap of `size` bytes is free.
pub open spec fn has_room(ranges: Seq<ByteRange>, limit: usize, size: int) -> bool {
    exists|start: int| is_free(ranges, limit, start, size)
}

/// The lowest offset at which `size` bytes are free, where there is one.
pub open spec fn lowest_free(ranges: Seq<ByteRange>, limit: usize, size: int) -> int {
    choose|start: int| is_first_fit(ranges, limit, start, size)
}

/// The region after `request` has been served: a request that is granted
/// changes the ranges carved out, one that is refused changes nothing.
pub open spec fn served(region: RegionView, request: Request) -> RegionView {
    let limit = region.extent.length;
    match request {
        Request::Slice(range) => if insert_outcome(region.occupied, limit, range) is Ok {
            region.with_occupied(with_range(region.occupied, range))
        } else {
            region
        },
        Request::Allocate(size) => if size > 0 && has_room(region.occupied, limit, size as int) {
            let start = lowest_free(region.occupied, limit, size as int);
            region.with_occupied(
                with_range(
                    region.occupied,
                    ByteRange { start: start as usize, end: (start + size) as usize },
                ),
            )
        } else {
            region
        },
        Request::Release(range) => region.with_occupied(region.occupied.remove_value(range)),
    }
}

/// The region after `requests` have been served one after the other.
pub open spec fn served_all(region: RegionView, requests: Seq<Request>) -> RegionView
    decreases requests.len(),
{
    if requests.len() == 0 {
        region
    } else {
        served(served_all(region, requests.drop_last()), requests.last())
    }
}

/// If `size` bytes are free at `start`, there is a lowest offset at which
/// they are, and it is not above `start`.
proof fn lemma_first_fit_below(ranges: Seq<ByteRange>, limit: usize, size: int, start: int)
    requires
        is_free(ranges, limit, start, size),
    ensures
        exists|first: int| first <= start && is_first_fit(ranges, limit, first, size),
    decreases start,
{
    if exists|lower: int| 0 <= lower < start && is_free(ranges, limit, lower, size) {
        let lower = choose|lower: int| 0 <= lower < start && is_free(ranges, limit, lower, size);
        lemma_first_fit_below(ranges, limit, size, lower);
    } else {
        assert(is_first_fit(ranges, limit, start, size));
    }
}

/// Where there is room, the lowest free offset is a first fit; and there
/// is only one first fit.
pub proof fn first_fit_is_unique(ranges: Seq<ByteRange>, limit: usize, size: int, start: int)
    requires
        is_first_fit(ranges, limit, start, size),
    ensures
        has_room(ranges, limit, size),
        lowest_free(ranges, limit, size) == start,
{
    let chosen = lowest_free(ranges, limit, size);
    assert(is_first_fit(ranges, limit, chosen, size));
    if chosen < start {
        assert(is_free(ranges, limit, chosen, size));
    } else if start < chosen {
        assert(is_free(ranges, limit, start, size));
    }
}

/// Serving a request keeps a region well formed, and changes nothing about
/// it but the ranges carved out.
pub proof fn serving_keeps_wf(region: RegionView, request: Request)
    requires
        region.wf(),
    ensures
        served(region, request).wf(),
        served(region, request) == region.with_occupied(served(region, request).occupied),
{
    let limit = region.extent.length;
    match request {
        Request::Slice(range) => {
            if insert_outcome(region.occupied, limit, range) is Ok {
                lemma_with_range(region.occupied, limit, range);
            }
        },
        Request::Allocate(size) => {
            if size > 0 && has_room(region.occupied, limit, size as int) {
                let free = choose|start: int| is_free(region.occupied, limit, start, size as int);
                lemma_first_fit_below(region.occupied, limit, size as int, free);
                let start = lowest_free(region.occupied, limit, size as int);
                assert(is_first_fit(region.occupied, limit, start, size as int));
                let granted = ByteRange { start: start as usize, end: (start + size) as usize };
                assert(!overlaps_any(region.occupied, granted));
                lemma_with_range(region.occupied, limit, granted);
            }
        },
        Request::Release(range) => {
            lemma_without_range(region.occupied, limit, range);
        },
    }
}

/// Any two ranges carved out of `region` stand for windows inside it that
/// have no byte in common.
pub open spec fn windows_apart(region: RegionView) -> bool {
    forall|i: int, j: int|
        0 <= i < j < region.occupied.len() ==> {
            &&& region.extent.encloses(region.window(#[trigger] region.occupied[i]))
            &&& region.extent.encloses(region.window(#[trigger] region.occupied[j]))
            &&& region.window(region.occupied[i]).disjoint_from(
                region.window(region.occupied[j]),
            )
        }
}

/// In a well-formed region the windows are apart.
pub proof fn wf_windows_apart(region: RegionView)
    requires
        region.wf(),
    ensures
        windows_apart(region),
{
    assert forall|i: int, j: int| 0 <= i < j < region.occupied.len() implies {
        &&& region.extent.encloses(region.window(#[trigger] region.occupied[i]))
        &&& region.extent.encloses(region.window(#[trigger] region.occupied[j]))
        &&& region.window(region.occupied[i]).disjoint_from(region.window(region.occupied[j]))
    } by {
        assert(region.occupied[i].fits_within(region.extent.length));
        assert(region.occupied[j].fits_within(region.extent.length));
        assert(region.occupied[i].end <= region.occupied[j].start);
    }
}

/// Whatever is asked of a well-formed region, and in whatever order, it
/// stays the region it was but for the ranges carved out, and the windows
/// those ranges stand for stay inside it and apart from each other.
pub proof fn windows_stay_disjoint(region: RegionView, requests: Seq<Request>)
    requires
        region.wf(),
    ensures
        served_all(region, requests).wf(),
        served_all(region, requests) == region.with_occupied(
            served_all(region, requests).occupied,
        ),
        windows_apart(served_all(region, requests)),
    decreases requests.len(),
{
    if requests.len() > 0 {
        windows_stay_disjoint(region, requests.drop_last());
        serving_keeps_wf(served_all(region, requests.drop_last()), requests.last());
    }
    wf_windows_apart(served_all(region, requests));
}

/// What `slice`, `allocate` and `release` leave behind is the region with
/// the request served: a granted slice records its range, an allocation
/// records the first fit, a refusal records nothing, and a release
/// forgets the range of the window given back.
pub proof fn requests_are_served(region: RegionView, range: ByteRange, size: usize, start: int)
    requires
        region.wf(),
    ensures
        insert_outcome(region.occupied, region.extent.length, range) is Ok ==> served(
            region,
            Request::Slice(range),
        ) == region.with_occupied(with_range(region.occupied, range)),
        insert_outcome(region.occupied, region.extent.length, range) is Err ==> served(
            region,
            Request::Slice(range),
        ) == region,
        size > 0 && is_first_fit(region.occupied, region.extent.length, start, size as int)
            ==> served(region, Request::Allocate(size)) == region.with_occupied(
            with_range(
                region.occupied,
                ByteRange { start: start as usize, end: (start + size) as usize },
            ),
        ),
        size == 0 || !has_room(region.occupied, region.extent.length, size as int) ==> served(
            region,
            Request::Allocate(size),
        ) == region,
        served(region, Request::Release(range)) == region.with_occupied(
            region.occupied.remove_value(range),
        ),
{
    if size > 0 && is_first_fit(region.occupied, region.extent.length, start, size as int) {
        first_fit_is_unique(region.occupied, region.extent.length, size as int, start);
    }
}

/// `count` requests for `size` bytes each.
pub open spec fn equal_requests(count: nat, size: usize) -> Seq<Request> {
    Seq::new(count, |i: int| Request::Allocate(size))
}

/// A region of `capacity * size` bytes with nothing carved out serves
/// `capacity` requests for `size` bytes with the slots in ascending order,
/// and serves no request for `size` bytes after that.
pub proof fn equal_requests_fill_exactly(
    region: RegionView,
    size: usize,
    capacity: nat,
    count: nat,
)
    requires
        region.wf(),
        region.occupied.len() == 0,
        size > 0,
        capacity * size == region.extent.length,
        count <= capacity,
    ensures
        served_all(region, equal_requests(count, size)) == region.with_occupied(
            packed(count, size),
        ),
        count == capacity ==> served(
            served_all(region, equal_requests(count, size)),
            Request::Allocate(size),
        ) == served_all(region, equal_requests(count, size)),
    decreases count,
{
    let limit = region.extent.length;
    let requests = equal_requests(count, size);
    if count == 0 {
        assert(region.occupied =~= packed(0, size));
    } else {
        let before = (count - 1) as nat;
        equal_requests_fill_exactly(region, size, capacity, before);
        assert(requests.drop_last() =~= equal_requests(before, size));
        assert(requests.last() == Request::Allocate(size));
        equal_windows_fill_exactly(limit, size, capacity, before);
        first_fit_is_unique(packed(before, size), limit, size as int, before * size);
    }
    if count == capacity {
        equal_windows_fill_exactly(limit, size, capacity, count);
        assert(!has_room(packed(count, size), limit, size as int));
    }
}

} // verus!
