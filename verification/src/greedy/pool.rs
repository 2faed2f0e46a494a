//! Two-tier block pools: small starter blocks that grow into full ones.
use vstd::prelude::*;

use crate::greedy::block;

verus! {

/// Slots a starter block holds; a bucket's fifth store grows it to full depth.
pub const STARTER_SLOTS: usize = 4;

/// Marks an encoded offset as a starter block.
pub const STARTER_FLAG: u32 = 0x100_0000;

/// Bound on encoded offsets.
pub const OFFSET_LIMIT: u32 = 0x200_0000;

/// Blocks a pool may hold.
pub const POOL_LIMIT: usize = 0x8000;

/// An activated on-demand block, by index into its pool.
#[derive(Copy, Clone, Debug, PartialEq, Eq, Structural)]
pub enum BlockRef {
    /// A block of [`STARTER_SLOTS`] slots.
    Starter(usize),
    /// A block of the shape's full depth.
    Full(usize),
}

/// The block an encoded offset names.
pub open spec fn block_named(offset: u32) -> Option<BlockRef> {
    if offset == 0 {
        None
    } else if offset >= STARTER_FLAG {
        Some(BlockRef::Starter((offset - STARTER_FLAG - 1) as usize))
    } else {
        Some(BlockRef::Full((offset - 1) as usize))
    }
}

/// Decodes an on-demand offset into the block it names.
pub fn block_at(offset: u32) -> (block: Option<BlockRef>)
    requires
        offset < OFFSET_LIMIT,
        offset != STARTER_FLAG,
    ensures
        block == block_named(offset),
{
    if offset == 0 {
        None
    } else if offset >= STARTER_FLAG {
        Some(BlockRef::Starter((offset - STARTER_FLAG - 1) as usize))
    } else {
        Some(BlockRef::Full((offset - 1) as usize))
    }
}

/// The cells of one block in a pool of `n`-cell blocks.
pub open spec fn run_of<T>(cells: Seq<T>, index: int, n: int) -> Seq<T> {
    cells.subrange(index * n, index * n + n)
}

/// An offset names a block the pools hold.
pub open spec fn in_pools<T>(starters: Seq<T>, blocks: Seq<T>, depth: int, offset: u32) -> bool {
    match block_named(offset) {
        None => true,
        Some(BlockRef::Starter(index)) => offset > STARTER_FLAG && (index + 1) * 4 <= starters.len(),
        Some(BlockRef::Full(index)) => (index + 1) * depth <= blocks.len(),
    }
}

/// What the block an offset names holds, `count` stores deep.
pub open spec fn named<T>(
    starters: Seq<T>,
    blocks: Seq<T>,
    depth: int,
    offset: u32,
    count: int,
) -> Seq<T> {
    match block_named(offset) {
        None => Seq::empty(),
        Some(BlockRef::Starter(index)) => block::kept(run_of(starters, index as int, 4), count),
        Some(BlockRef::Full(index)) => block::kept(run_of(blocks, index as int, depth), count),
    }
}

/// A block lies inside its pool.
pub proof fn lemma_run_fits(index: int, n: int, total: int)
    requires
        0 <= index,
        0 < n,
        (index + 1) * n <= total,
    ensures
        0 <= index * n,
        index * n + n == (index + 1) * n,
        index * n + n <= total,
{
    assert(0 <= index * n) by (nonlinear_arith)
        requires
            0 <= index,
            0 < n,
    ;
    assert(index * n + n == (index + 1) * n) by (nonlinear_arith);
}

/// Writing a cell changes its own block and no other.
pub proof fn lemma_run_update<T>(cells: Seq<T>, index: int, n: int, slot: int, value: T)
    requires
        0 <= index,
        0 < n,
        0 <= slot < n,
        (index + 1) * n <= cells.len(),
    ensures
        0 <= index * n + slot < cells.len(),
        run_of(cells.update(index * n + slot, value), index, n) == run_of(cells, index, n).update(
            slot,
            value,
        ),
        forall|j: int|
            0 <= j && j != index && (j + 1) * n <= cells.len() ==> #[trigger] run_of(
                cells.update(index * n + slot, value),
                j,
                n,
            ) == run_of(cells, j, n),
{
    lemma_run_fits(index, n, cells.len() as int);
    let changed = cells.update(index * n + slot, value);
    assert(run_of(changed, index, n) =~= run_of(cells, index, n).update(slot, value));
    assert forall|j: int| 0 <= j && j != index && (j + 1) * n <= cells.len() implies #[trigger] run_of(
        changed,
        j,
        n,
    ) == run_of(cells, j, n) by {
        lemma_run_fits(j, n, cells.len() as int);
        if j < index {
            assert((j + 1) * n <= index * n) by (nonlinear_arith)
                requires
                    j + 1 <= index,
                    0 < n,
            ;
        } else {
            assert((index + 1) * n <= j * n) by (nonlinear_arith)
                requires
                    index + 1 <= j,
                    0 < n,
            ;
        }
        assert(run_of(changed, j, n) =~= run_of(cells, j, n));
    }
}

/// Appending cells changes no block already there.
pub proof fn lemma_run_append<T>(cells: Seq<T>, more: Seq<T>, n: int)
    requires
        0 < n,
    ensures
        forall|j: int|
            0 <= j && (j + 1) * n <= cells.len() ==> #[trigger] run_of(cells + more, j, n) == run_of(
                cells,
                j,
                n,
            ),
{
    assert forall|j: int| 0 <= j && (j + 1) * n <= cells.len() implies #[trigger] run_of(
        cells + more,
        j,
        n,
    ) == run_of(cells, j, n) by {
        lemma_run_fits(j, n, cells.len() as int);
        assert(run_of(cells + more, j, n) =~= run_of(cells, j, n));
    }
}

/// Appends a number of equal cells.
fn append_cells<T: Copy>(cells: &mut Vec<T>, zero: T, n: usize)
    requires
        old(cells)@.len() + n <= usize::MAX,
    ensures
        final(cells)@.len() == old(cells)@.len() + n,
        final(cells)@ == old(cells)@ + Seq::new(n as nat, |i: int| zero),
{
    let mut added: usize = 0;
    while added < n
        invariant
            added <= n,
            cells@.len() == old(cells)@.len() + added,
            old(cells)@.len() + n <= usize::MAX,
            cells@ =~= old(cells)@ + Seq::new(added as nat, |i: int| zero),
        decreases n - added,
    {
        cells.push(zero);
        added += 1;
    }
}

/// The offset a store into a bucket's block leads to.
pub open spec fn next_offset(starters: int, blocks: int, depth: int, count: u16, offset: u32) -> int {
    match block_named(offset) {
        None => STARTER_FLAG + starters / 4 + 1,
        Some(BlockRef::Starter(_)) => if count < STARTER_SLOTS {
            offset as int
        } else {
            blocks / depth + 1
        },
        Some(BlockRef::Full(_)) => offset as int,
    }
}

/// Stores a value into the block an offset names, `count` stores deep,
/// activating a starter block or growing it to a full one first; returns the
/// offset to record.
pub fn store_cell<T: Copy>(
    starters: &mut Vec<T>,
    blocks: &mut Vec<T>,
    depth: usize,
    count: u16,
    offset: u32,
    zero: T,
    value: T,
) -> (next: u32)
    requires
        16 <= depth <= 256,
        offset < OFFSET_LIMIT,
        in_pools(old(starters)@, old(blocks)@, depth as int, offset),
        offset == 0 ==> count == 0,
        offset >= STARTER_FLAG ==> count <= STARTER_SLOTS,
        old(starters)@.len() % 4 == 0,
        old(blocks)@.len() % depth as nat == 0,
        old(starters)@.len() <= 4 * POOL_LIMIT,
        old(blocks)@.len() <= depth * POOL_LIMIT,
        offset == 0 ==> old(starters)@.len() < 4 * POOL_LIMIT,
        offset >= STARTER_FLAG ==> old(blocks)@.len() < depth * POOL_LIMIT,
    ensures
        next == next_offset(
            old(starters)@.len() as int,
            old(blocks)@.len() as int,
            depth as int,
            count,
            offset,
        ),
        next != 0,
        next < OFFSET_LIMIT,
        in_pools(final(starters)@, final(blocks)@, depth as int, next),
        final(starters)@.len() == old(starters)@.len() + if offset == 0 {
            4int
        } else {
            0int
        },
        final(blocks)@.len() == old(blocks)@.len() + if offset >= STARTER_FLAG && next
            < STARTER_FLAG {
            depth as int
        } else {
            0int
        },
        named(final(starters)@, final(blocks)@, depth as int, next, count + 1) == block::truncated(
            seq![value] + named(
                old(starters)@,
                old(blocks)@,
                depth as int,
                offset,
                count as int,
            ),
            depth as int,
        ),
        forall|o: u32, c: int|
            o != next && in_pools(old(starters)@, old(blocks)@, depth as int, o) ==> #[trigger] named(
                final(starters)@,
                final(blocks)@,
                depth as int,
                o,
                c,
            ) == named(old(starters)@, old(blocks)@, depth as int, o, c),
        forall|o: u32|
            in_pools(old(starters)@, old(blocks)@, depth as int, o) ==> #[trigger] in_pools(
                final(starters)@,
                final(blocks)@,
                depth as int,
                o,
            ),
{
    let ghost starters0 = starters@;
    let ghost blocks0 = blocks@;
    match block_at(offset) {
        None => {
            let index: usize = starters.len() / STARTER_SLOTS;
            append_cells(starters, zero, STARTER_SLOTS);
            let ghost grown = starters@;
            let at: usize = index * 4 + 3;
            starters.set(at, value);
            proof {
                lemma_run_append(starters0, Seq::new(4, |i: int| zero), 4);
                lemma_run_update(grown, index as int, 4, 3, value);
                block::lemma_kept_push(run_of(grown, index as int, 4), 0, value);
                let held = block::kept(run_of(grown, index as int, 4), 0);
                assert(held =~= Seq::<T>::empty());
                let next = (STARTER_FLAG + index + 1) as u32;
                assert forall|o: u32, c: int|
                    o != next && in_pools(starters0, blocks0, depth as int, o) implies #[trigger] named(
                    starters@,
                    blocks@,
                    depth as int,
                    o,
                    c,
                ) == named(starters0, blocks0, depth as int, o, c) by {
                    if let Some(BlockRef::Starter(j)) = block_named(o) {
                        assert(run_of(grown, j as int, 4) == run_of(starters0, j as int, 4));
                        assert(j != index);
                        assert(run_of(starters@, j as int, 4) == run_of(grown, j as int, 4));
                    }
                }
            }
            STARTER_FLAG + index as u32 + 1
        },
        Some(BlockRef::Starter(index)) => {
            if (count as usize) < STARTER_SLOTS {
                let at: usize = index * 4 + (3 - count as usize);
                proof {
                    lemma_run_update(starters0, index as int, 4, 3 - count, value);
                    block::lemma_kept_push(
                        run_of(starters0, index as int, 4),
                        count as int,
                        value,
                    );
                }
                starters.set(at, value);
                proof {
                    assert forall|o: u32, c: int|
                        o != offset && in_pools(starters0, blocks0, depth as int, o) implies #[trigger] named(
                        starters@,
                        blocks@,
                        depth as int,
                        o,
                        c,
                    ) == named(starters0, blocks0, depth as int, o, c) by {
                        if let Some(BlockRef::Starter(j)) = block_named(o) {
                            assert(run_of(starters@, j as int, 4) == run_of(
                                starters0,
                                j as int,
                                4,
                            ));
                        }
                    }
                }
                offset
            } else {
                // Both fill downwards from the top, so the starter's slots are
                // the top slots of a full block.
                let full: usize = blocks.len() / depth;
                proof {
                    vstd::arithmetic::div_mod::lemma_fundamental_div_mod(
                        blocks0.len() as int,
                        depth as int,
                    );
                    assert(depth * full == full * depth) by (nonlinear_arith);
                    assert(full < POOL_LIMIT) by (nonlinear_arith)
                        requires
                            full * depth < depth * POOL_LIMIT,
                            0 < depth,
                    ;
                    assert(full * depth + depth == (full + 1) * depth) by (nonlinear_arith);
                    assert(depth * POOL_LIMIT <= 256 * 0x8000) by (nonlinear_arith)
                        requires
                            depth <= 256,
                            POOL_LIMIT == 0x8000,
                    ;
                }
                append_cells(blocks, zero, depth);
                let ghost grown = blocks@;
                let base: usize = full * depth + (depth - STARTER_SLOTS);
                blocks.set(base, starters[index * 4]);
                blocks.set(base + 1, starters[index * 4 + 1]);
                blocks.set(base + 2, starters[index * 4 + 2]);
                blocks.set(base + 3, starters[index * 4 + 3]);
                let ghost copied = blocks@;
                blocks.set(base - 1, value);
                proof {
                    lemma_run_append(blocks0, Seq::new(depth as nat, |i: int| zero), depth as int);
                    lemma_run_fits(full as int, depth as int, grown.len() as int);
                    let small = run_of(starters0, index as int, 4);
                    let large = run_of(copied, full as int, depth as int);
                    assert forall|j: int|
                        0 <= j && (j + 1) * depth <= blocks0.len() implies #[trigger] run_of(
                        copied,
                        j,
                        depth as int,
                    ) == run_of(blocks0, j, depth as int) by {
                        lemma_run_fits(j, depth as int, blocks0.len() as int);
                        assert(run_of(copied, j, depth as int) =~= run_of(
                            blocks0,
                            j,
                            depth as int,
                        ));
                    }
                    lemma_run_update(copied, full as int, depth as int, depth - 5, value);
                    block::lemma_kept_push(large, 4, value);
                    assert forall|age: int| 0 <= age < 4 implies block::kept(large, 4)[age]
                        == block::kept(small, 4)[age] by {
                        vstd::arithmetic::div_mod::lemma_small_mod((3 - age) as nat, depth as nat);
                        assert(block::store_slot(4, 3 - age) == age);
                    }
                    assert(block::kept(large, 4) =~= block::kept(small, 4));
                    vstd::arithmetic::div_mod::lemma_small_mod(4, depth as nat);
                    let next = (full + 1) as u32;
                    assert forall|o: u32, c: int|
                        o != next && in_pools(starters0, blocks0, depth as int, o) implies #[trigger] named(
                        starters@,
                        blocks@,
                        depth as int,
                        o,
                        c,
                    ) == named(starters0, blocks0, depth as int, o, c) by {
                        if let Some(BlockRef::Full(j)) = block_named(o) {
                            assert(run_of(copied, j as int, depth as int) == run_of(
                                blocks0,
                                j as int,
                                depth as int,
                            ));
                            assert(run_of(blocks@, j as int, depth as int) == run_of(
                                copied,
                                j as int,
                                depth as int,
                            ));
                        }
                    }
                }
                full as u32 + 1
            }
        },
        Some(BlockRef::Full(index)) => {
            proof {
                vstd::arithmetic::div_mod::lemma_mod_bound(count as int, depth as int);
                lemma_run_fits(index as int, depth as int, blocks0.len() as int);
                lemma_run_update(
                    blocks0,
                    index as int,
                    depth as int,
                    block::store_slot(depth as int, count as int),
                    value,
                );
                block::lemma_kept_push(
                    run_of(blocks0, index as int, depth as int),
                    count as int,
                    value,
                );
            }
            let at: usize = index * depth + (depth - 1 - (count as usize) % depth);
            blocks.set(at, value);
            proof {
                assert forall|o: u32, c: int|
                    o != offset && in_pools(starters0, blocks0, depth as int, o) implies #[trigger] named(
                    starters@,
                    blocks@,
                    depth as int,
                    o,
                    c,
                ) == named(starters0, blocks0, depth as int, o, c) by {
                    if let Some(BlockRef::Full(j)) = block_named(o) {
                        assert(run_of(blocks@, j as int, depth as int) == run_of(
                            blocks0,
                            j as int,
                            depth as int,
                        ));
                    }
                }
            }
            offset
        },
    }
}

} // verus!
