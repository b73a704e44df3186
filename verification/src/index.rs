//! Byte-offset and time indexes of a segment, and the ranges cut from
//! them.
use vstd::prelude::*;

verus! {

/// One byte-index entry: `position` is the byte offset in the segment's log
/// file at which the batch that ends at `relative_offset` begins.
#[derive(Clone, Copy, Debug, PartialEq, Eq, Structural)]
pub struct Index {
    pub relative_offset: u32,
    pub position: u32,
}

/// One time-index entry: the timestamp of the last message of the batch
/// that ends at `relative_offset`.
#[derive(Clone, Copy, Debug, PartialEq, Eq, Structural)]
pub struct TimeIndex {
    pub relative_offset: u32,
    pub timestamp: u64,
}

/// A pair of byte-index entries naming a contiguous region of the log file.
#[derive(Clone, Copy, Debug, PartialEq, Eq, Structural)]
pub struct IndexRange {
    pub start: Index,
    pub end: Index,
}

/// Relative offsets strictly increase and positions never decrease along an
/// index, and no position passes the segment's size.
pub open spec fn indexes_sorted(s: Seq<Index>, size: int) -> bool {
    &&& forall|i: int, j: int| 0 <= i < j < s.len()
        ==> (#[trigger] s[i]).relative_offset < (#[trigger] s[j]).relative_offset
    &&& forall|i: int, j: int| 0 <= i < j < s.len()
        ==> (#[trigger] s[i]).position <= (#[trigger] s[j]).position
    &&& forall|i: int| 0 <= i < s.len() ==> (#[trigger] s[i]).position <= size
}

/// Relative offsets and timestamps both never decrease along a time index.
pub open spec fn time_indexes_sorted(s: Seq<TimeIndex>) -> bool {
    &&& forall|i: int, j: int| 0 <= i < j < s.len()
        ==> (#[trigger] s[i]).relative_offset < (#[trigger] s[j]).relative_offset
    &&& forall|i: int, j: int| 0 <= i < j < s.len()
        ==> (#[trigger] s[i]).timestamp <= (#[trigger] s[j]).timestamp
}

/// Position of the first index entry whose relative offset is at least
/// `rel`, or the length when there is none.
pub fn find_index_entry(indexes: &Vec<Index>, rel: u32) -> (r: usize)
    requires
        forall|i: int, j: int| 0 <= i < j < indexes@.len()
            ==> (#[trigger] indexes@[i]).relative_offset
                < (#[trigger] indexes@[j]).relative_offset,
    ensures
        r <= indexes@.len(),
        forall|i: int| 0 <= i < r ==> (#[trigger] indexes@[i]).relative_offset < rel,
        r < indexes@.len() ==> indexes@[r as int].relative_offset >= rel,
{
    let mut lo: usize = 0;
    let mut hi: usize = indexes.len();
    while lo < hi
        invariant
            lo <= hi <= indexes@.len(),
            forall|i: int| 0 <= i < lo ==> (#[trigger] indexes@[i]).relative_offset < rel,
            forall|i: int| hi <= i < indexes@.len()
                ==> (#[trigger] indexes@[i]).relative_offset >= rel,
            forall|i: int, j: int| 0 <= i < j < indexes@.len()
                ==> (#[trigger] indexes@[i]).relative_offset
                    < (#[trigger] indexes@[j]).relative_offset,
        decreases hi - lo,
    {
        let mid = lo + (hi - lo) / 2;
        if indexes[mid].relative_offset < rel {
            proof {
                assert forall|i: int| 0 <= i < mid + 1 implies (#[trigger] indexes@[i])
                    .relative_offset < rel by {
                    if i < mid {
                        assert(indexes@[i].relative_offset < indexes@[mid as int].relative_offset);
                    }
                }
            }
            lo = mid + 1;
        } else {
            proof {
                assert forall|i: int| mid <= i < indexes@.len() implies (#[trigger] indexes@[i])
                    .relative_offset >= rel by {
                    if i > mid {
                        assert(indexes@[mid as int].relative_offset < indexes@[i].relative_offset);
                    }
                }
            }
            hi = mid;
        }
    }
    lo
}

} // verus!
