//! How much memory is held.
use vstd::prelude::*;

verus! {

/// Returns how many items a vector has room for.
///
/// Calls `Vec::capacity` of std, which is never less than the length. How much more
/// it is depends on the allocator and is left open.
#[verifier::external_body]
fn capacity_of<T>(items: &Vec<T>) -> (capacity: usize)
    ensures
        capacity >= items@.len(),
{
    items.capacity()
}

/// Bytes enough for what is needed, or as many as can be said.
pub open spec fn covers(bytes: usize, need: int) -> bool {
    bytes >= need || bytes == usize::MAX
}

/// Adds, stopping at the top.
pub fn total(left: usize, right: usize) -> (sum: usize)
    ensures
        left + right <= usize::MAX ==> sum == left + right,
        left + right > usize::MAX ==> sum == usize::MAX,
{
    left.saturating_add(right)
}

/// What room for so many items takes, if an item takes `width` bytes, or as much as can
/// be said.
pub open spec fn room(capacity: int, width: int) -> int {
    if capacity * width > usize::MAX {
        usize::MAX as int
    } else {
        capacity * width
    }
}

/// Returns how many bytes room for so many items takes, stopping at the top.
pub fn room_for(capacity: usize, width: usize) -> (bytes: usize)
    ensures
        bytes == room(capacity as int, width as int),
{
    match capacity.checked_mul(width) {
        Some(bytes) => bytes,
        None => usize::MAX,
    }
}

/// Returns how many bytes a vector holds, if an item takes `width` bytes: what the room
/// it has takes.
pub fn held_by<T>(items: &Vec<T>, width: usize) -> (bytes: usize)
    ensures
        exists|capacity: int|
            items@.len() <= capacity <= usize::MAX && bytes == #[trigger] room(
                capacity,
                width as int,
            ),
        covers(bytes, items@.len() * width),
        width == 0 ==> bytes == 0,
{
    let capacity: usize = capacity_of(items);
    let bytes: usize = room_for(capacity, width);
    proof {
        assert(items@.len() * width <= capacity * width) by (nonlinear_arith)
            requires
                items@.len() <= capacity,
                0 <= width,
        ;
        assert(width == 0 ==> capacity * width == 0) by (nonlinear_arith);
    }
    bytes
}

} // verus!
