//! Copying byte strings into buffers.
use vstd::prelude::*;

verus! {

/// What copying `data` at byte `start` leaves in a buffer with room for it.
pub open spec fn spliced(s: Seq<u8>, start: int, data: Seq<u8>) -> Seq<u8> {
    Seq::new(
        s.len(),
        |i: int|
            if start <= i < start + data.len() {
                data[i - start]
            } else {
                s[i]
            },
    )
}

/// Copies `source` into `target` starting at `start`.
pub fn copy_at(target: &mut Vec<u8>, start: usize, source: &[u8])
    requires
        start + source@.len() <= old(target)@.len(),
    ensures
        final(target)@ == spliced(old(target)@, start as int, source@),
{
    let ghost before = target@;
    let mut k: usize = 0;
    while k < source.len()
        invariant
            k <= source@.len(),
            start + source@.len() <= before.len(),
            target@.len() == before.len(),
            target.len() == target@.len(),
            forall|i: int|
                0 <= i < before.len() ==> target@[i] == if start <= i < start + k {
                    source@[i - start]
                } else {
                    before[i]
                },
        decreases source@.len() - k,
    {
        target.set(start + k, source[k]);
        k += 1;
    }
    assert(target@ =~= spliced(before, start as int, source@));
}

/// Clears `target[start..end]`.
pub fn clear_range(target: &mut Vec<u8>, start: usize, end: usize)
    requires
        start <= end <= old(target)@.len(),
    ensures
        final(target)@.len() == old(target)@.len(),
        forall|i: int|
            0 <= i < old(target)@.len() ==> final(target)@[i] == if start <= i < end {
                0
            } else {
                old(target)@[i]
            },
{
    let ghost before = target@;
    let mut k: usize = start;
    while k < end
        invariant
            start <= k <= end <= before.len(),
            target@.len() == before.len(),
            forall|i: int|
                0 <= i < before.len() ==> target@[i] == if start <= i < k {
                    0
                } else {
                    before[i]
                },
        decreases end - k,
    {
        target.set(k, 0);
        k += 1;
    }
}

} // verus!
