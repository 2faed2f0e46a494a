//! Greedy block splitting.
//!
//! A splitter consumes symbols in order and decides, every time it has collected
//! a target number of them, whether the block it just gathered deserves a prefix
//! code of its own, looks like the block before last, or extends the last one.
//! How alike two blocks are is the caller's estimate; what follows from it is
//! decided here.
use vstd::prelude::*;

use crate::math;
use crate::shared::block_split::{BlockSplit, MAX_NUMBER_OF_BLOCK_TYPES};
use crate::shared::histogram::Histogram;

verus! {

/// A literal and the context it was read in.
#[derive(Copy, Clone, Debug, PartialEq, Eq, Structural)]
pub struct Symbol {
    /// The symbol.
    pub value: usize,
    /// Its context.
    pub context: usize,
}

/// How the block just gathered compares with the last two.
#[derive(Copy, Clone, Debug, PartialEq, Eq, Structural)]
pub struct Evidence {
    /// Sharing a code with the last block would cost more than the threshold.
    pub apart_from_last: bool,
    /// Sharing a code with the block before last would cost more than the threshold.
    pub apart_from_second: bool,
    /// The block before last is clearly the better of the two.
    pub second_closer: bool,
}

/// What became of a gathered block.
#[derive(Copy, Clone, Debug, PartialEq, Eq, Structural)]
pub enum Outcome {
    /// It is the first block.
    First,
    /// It got a type of its own.
    NewType,
    /// It reuses the type of the block before last.
    SecondLast,
    /// It extends the last block.
    Merged,
}

/// How often a symbol occurs in a context of a run.
pub open spec fn counted(run: Seq<Symbol>, context: int, value: int) -> int {
    math::tally(run, |s: Symbol| s.context == context && s.value == value) as int
}

/// How often a symbol occurs in a context of the blocks of one type.
pub open spec fn assigned(
    types: Seq<u8>,
    blocks: Seq<Seq<Symbol>>,
    block_type: int,
    context: int,
    value: int,
) -> int
    decreases blocks.len(),
{
    if blocks.len() == 0 {
        0
    } else {
        assigned(types, blocks.drop_last(), block_type, context, value) + if types[blocks.len() - 1]
            == block_type {
            counted(blocks.last(), context, value)
        } else {
            0
        }
    }
}

/// Blocks before a place are assigned alike whatever types follow.
proof fn lemma_assigned_frame(
    types: Seq<u8>,
    other: Seq<u8>,
    blocks: Seq<Seq<Symbol>>,
    block_type: int,
    context: int,
    value: int,
)
    requires
        blocks.len() <= types.len(),
        blocks.len() <= other.len(),
        forall|i: int| 0 <= i < blocks.len() ==> types[i] == #[trigger] other[i],
    ensures
        assigned(types, blocks, block_type, context, value) == assigned(
            other,
            blocks,
            block_type,
            context,
            value,
        ),
    decreases blocks.len(),
{
    if blocks.len() > 0 {
        lemma_assigned_frame(types, other, blocks.drop_last(), block_type, context, value);
        assert(types[blocks.len() - 1] == other[blocks.len() - 1]);
    }
}

/// A new block adds its run to its type.
proof fn lemma_assigned_push(
    types: Seq<u8>,
    blocks: Seq<Seq<Symbol>>,
    new_type: u8,
    run: Seq<Symbol>,
    block_type: int,
    context: int,
    value: int,
)
    requires
        types.len() == blocks.len(),
    ensures
        assigned(types.push(new_type), blocks.push(run), block_type, context, value) == assigned(
            types,
            blocks,
            block_type,
            context,
            value,
        ) + if new_type == block_type {
            counted(run, context, value)
        } else {
            0
        },
{
    assert(blocks.push(run).drop_last() =~= blocks);
    lemma_assigned_frame(types, types.push(new_type), blocks, block_type, context, value);
}

/// Extending the last block adds the run to its type.
proof fn lemma_assigned_extend(
    types: Seq<u8>,
    blocks: Seq<Seq<Symbol>>,
    run: Seq<Symbol>,
    block_type: int,
    context: int,
    value: int,
)
    requires
        types.len() == blocks.len(),
        blocks.len() > 0,
    ensures
        assigned(
            types,
            blocks.update(blocks.len() - 1, blocks.last() + run),
            block_type,
            context,
            value,
        ) == assigned(types, blocks, block_type, context, value) + if types.last() == block_type {
            counted(run, context, value)
        } else {
            0
        },
{
    let longer = blocks.update(blocks.len() - 1, blocks.last() + run);
    assert(longer.drop_last() =~= blocks.drop_last());
    math::lemma_tally_append(
        blocks.last(),
        run,
        |s: Symbol| s.context == context && s.value == value,
    );
}

/// The totals of a list of histograms together.
pub open spec fn mass(histograms: Seq<Histogram>) -> int
    decreases histograms.len(),
{
    if histograms.len() == 0 {
        0
    } else {
        mass(histograms.drop_last()) + histograms.last().total
    }
}

/// Replacing a histogram changes the mass by as much.
proof fn lemma_mass_update(histograms: Seq<Histogram>, i: int, value: Histogram)
    requires
        0 <= i < histograms.len(),
    ensures
        mass(histograms.update(i, value)) == mass(histograms) - histograms[i].total + value.total,
    decreases histograms.len(),
{
    if i == histograms.len() - 1 {
        assert(histograms.update(i, value).drop_last() =~= histograms.drop_last());
    } else {
        lemma_mass_update(histograms.drop_last(), i, value);
        assert(histograms.update(i, value).drop_last() =~= histograms.drop_last().update(i, value));
    }
}

/// No histogram weighs more than all of them.
proof fn lemma_mass_bound(histograms: Seq<Histogram>)
    ensures
        mass(histograms) >= 0,
        forall|i: int|
            0 <= i < histograms.len() ==> (#[trigger] histograms[i]).total <= mass(histograms),
    decreases histograms.len(),
{
    if histograms.len() > 0 {
        lemma_mass_bound(histograms.drop_last());
        assert forall|i: int| 0 <= i < histograms.len() implies (#[trigger] histograms[i]).total
            <= mass(histograms) by {
            if i < histograms.len() - 1 {
                assert(histograms.drop_last()[i].total <= mass(histograms.drop_last()));
            }
        }
    }
}

/// Two histograms weigh no more than all of them.
proof fn lemma_mass_pair(histograms: Seq<Histogram>, i: int, j: int)
    requires
        0 <= i < j < histograms.len(),
    ensures
        histograms[i].total + histograms[j].total <= mass(histograms),
    decreases histograms.len(),
{
    lemma_mass_bound(histograms.drop_last());
    if j == histograms.len() - 1 {
        assert(histograms.drop_last()[i].total <= mass(histograms.drop_last()));
    } else {
        lemma_mass_pair(histograms.drop_last(), i, j);
    }
}

/// The sum of the block lengths.
pub open spec fn spanned(lengths: Seq<u32>) -> int {
    crate::shared::histogram::sum(lengths)
}

/// Greedy splitter for literals gathered per context.
///
/// Each block type owns `num_contexts` histograms.
pub struct ContextBlockSplitter {
    /// Number of symbols.
    pub alphabet_size: usize,
    /// Number of contexts.
    pub num_contexts: usize,
    /// Largest number of block types.
    pub max_block_types: usize,
    /// The smallest block the splitter asks about.
    pub min_block_size: usize,
    /// The split being built.
    pub split: BlockSplit,
    /// `num_contexts` histograms per block type, in type-major order, then those
    /// of the block being gathered.
    pub histograms: Vec<Histogram>,
    /// How many symbols the next block is asked about at.
    pub target_block_size: usize,
    /// How many symbols have been gathered.
    pub block_size: usize,
    /// The type of the last block.
    pub last_type: usize,
    /// The type of the block before last.
    pub second_last_type: usize,
    /// How often in a row the last block was extended.
    pub merge_last_count: usize,
    /// The symbols of each block.
    pub blocks: Ghost<Seq<Seq<Symbol>>>,
    /// The symbols gathered.
    pub pending: Ghost<Seq<Symbol>>,
}

impl ContextBlockSplitter {
    /// The sizes are ones the format allows.
    pub open spec fn shaped(&self) -> bool {
        &&& 1 <= self.num_contexts <= 256
        &&& self.max_block_types == MAX_NUMBER_OF_BLOCK_TYPES / self.num_contexts
        &&& 1 <= self.min_block_size <= u32::MAX
    }

    /// The blocks, their types and their lengths go together, and the types and
    /// the last two of them are what the counters say.
    pub open spec fn split_inv(&self) -> bool {
        let n = self.split.types@.len();
        &&& self.split.lengths@.len() == n
        &&& self.blocks@.len() == n
        &&& self.split.num_types <= self.max_block_types
        &&& n == 0 <==> self.split.num_types == 0
        &&& n > 0 ==> self.split.types@[0] == 0
        &&& n > 0 ==> self.last_type == self.split.types@[n - 1]
        &&& n > 1 ==> self.second_last_type == self.split.types@[n - 2]
        &&& self.last_type < self.split.num_types || n == 0
        &&& self.second_last_type < self.split.num_types || n == 0
        &&& forall|i: int|
            0 <= i < n ==> (#[trigger] self.split.types@[i]) < self.split.num_types
        &&& forall|i: int|
            0 <= i < n ==> self.blocks@[i].len() <= (#[trigger] self.split.lengths@[i])
        &&& forall|i: int|
            0 <= i < n ==> (#[trigger] self.split.lengths@[i]) >= self.min_block_size
        &&& forall|i: int|
            0 < i < n ==> (#[trigger] self.split.types@[i]) != self.split.types@[i - 1]
    }

    /// The histogram of a type and context counts the symbols of its blocks.
    pub open spec fn type_counts(&self) -> bool {
        forall|t: int, c: int, s: int|
            0 <= t < self.split.num_types && 0 <= c < self.num_contexts && 0 <= s
                < self.alphabet_size ==> #[trigger] self.count(t, c, s) == assigned(
                self.split.types@,
                self.blocks@,
                t,
                c,
                s,
            )
    }

    /// What a type's histogram counts.
    pub open spec fn count(&self, block_type: int, context: int, value: int) -> int {
        self.histograms@[block_type * self.num_contexts + context]@[value] as int
    }

    /// The current histograms count the symbols gathered.
    pub open spec fn pending_counts(&self) -> bool {
        forall|c: int, s: int|
            0 <= c < self.num_contexts && 0 <= s < self.alphabet_size ==> #[trigger] self.count(
                self.split.num_types as int,
                c,
                s,
            ) == counted(self.pending@, c, s)
    }

    /// Every histogram has the alphabet's size.
    pub open spec fn histograms_inv(&self) -> bool {
        forall|i: int|
            0 <= i < self.histograms@.len() ==> (#[trigger] self.histograms@[i]).wf()
                && self.histograms@[i]@.len() == self.alphabet_size
    }

    /// The splitter is gathering symbols.
    pub open spec fn inv(&self) -> bool {
        &&& self.shaped()
        &&& self.split_inv()
        &&& self.histograms_inv()
        &&& self.histograms@.len() == (self.split.num_types + 1) * self.num_contexts
        &&& self.type_counts()
        &&& self.pending_counts()
        &&& self.block_size == self.pending@.len()
        &&& mass(self.histograms@) <= spanned(self.split.lengths@) + self.block_size
        &&& 1 <= self.target_block_size <= spanned(self.split.lengths@) + self.min_block_size
        &&& self.merge_last_count <= spanned(self.split.lengths@)
        &&& self.block_size <= self.target_block_size
    }

    /// Enough symbols have been gathered to ask about the block.
    pub open spec fn full(&self) -> bool {
        self.block_size == self.target_block_size
    }

    /// There is room for one more block of the gathered size.
    pub open spec fn has_room(&self) -> bool {
        spanned(self.split.lengths@) + self.block_size + 1 + 2 * self.min_block_size <= u32::MAX
    }

    /// Creates a splitter over `num_contexts` contexts.
    pub fn new(alphabet_size: usize, num_contexts: usize, min_block_size: usize) -> (splitter: Self)
        requires
            1 <= num_contexts <= 256,
            1 <= min_block_size <= 0x1000_0000,
        ensures
            splitter.inv(),
            splitter.alphabet_size == alphabet_size,
            splitter.num_contexts == num_contexts,
            splitter.max_block_types == MAX_NUMBER_OF_BLOCK_TYPES / num_contexts,
            splitter.min_block_size == min_block_size,
            splitter.target_block_size == min_block_size,
            splitter.blocks@ == Seq::<Seq<Symbol>>::empty(),
            splitter.pending@ == Seq::<Symbol>::empty(),
            splitter.has_room(),
            !splitter.full(),
    {
        let mut histograms: Vec<Histogram> = Vec::new();
        let mut made: usize = 0;
        while made < num_contexts
            invariant
                made <= num_contexts,
                num_contexts <= 256,
                histograms@.len() == made,
                mass(histograms@) == 0,
                forall|i: int|
                    0 <= i < made ==> (#[trigger] histograms@[i]).wf() && histograms@[i]@.len()
                        == alphabet_size,
                forall|i: int, s: int|
                    0 <= i < made && 0 <= s < alphabet_size ==> #[trigger] histograms@[i]@[s] == 0,
            decreases num_contexts - made,
        {
            let ghost before = histograms@;
            histograms.push(Histogram::new(alphabet_size));
            proof {
                assert(histograms@.drop_last() =~= before);
            }
            made += 1;
        }
        ContextBlockSplitter {
            alphabet_size,
            num_contexts,
            max_block_types: MAX_NUMBER_OF_BLOCK_TYPES / num_contexts,
            min_block_size,
            split: BlockSplit::default(),
            histograms,
            target_block_size: min_block_size,
            block_size: 0,
            last_type: 0,
            second_last_type: 0,
            merge_last_count: 0,
            blocks: Ghost(Seq::empty()),
            pending: Ghost(Seq::empty()),
        }
    }
}

/// Cells of a table with `n` columns: a place names one row and one column.
proof fn lemma_cells(n: int, row: int, column: int, other_row: int, other_column: int)
    requires
        0 < n,
        0 <= column < n,
        0 <= other_column < n,
        0 <= row,
        0 <= other_row,
    ensures
        row * n + column == other_row * n + other_column ==> row == other_row && column
            == other_column,
        row < other_row ==> row * n + column < other_row * n,
        0 <= row * n,
{
    assert(0 <= row * n) by (nonlinear_arith)
        requires
            0 <= row,
            0 < n,
    ;
    if row < other_row {
        assert(row * n + n <= other_row * n) by (nonlinear_arith)
            requires
                row + 1 <= other_row,
                0 < n,
        ;
    }
    if other_row < row {
        assert(other_row * n + n <= row * n) by (nonlinear_arith)
            requires
                other_row + 1 <= row,
                0 < n,
        ;
    }
}

impl ContextBlockSplitter {
    /// Histograms of a type and context lie in the table.
    proof fn lemma_in_table(&self, block_type: int, context: int)
        requires
            self.shaped(),
            self.split.num_types <= self.max_block_types,
            self.histograms@.len() == (self.split.num_types + 1) * self.num_contexts,
            0 <= block_type <= self.split.num_types,
            0 <= context < self.num_contexts,
        ensures
            0 <= block_type * self.num_contexts + context < self.histograms@.len(),
            0 <= block_type * self.num_contexts,
            self.histograms@.len() <= 65536 + 256,
            self.split.num_types <= 256,
    {
        lemma_cells(self.num_contexts as int, block_type, context, self.split.num_types + 1, 0);
        let types = self.split.num_types as int;
        let contexts = self.num_contexts as int;
        assert((types + 1) * contexts <= 65536 + 256) by (nonlinear_arith)
            requires
                0 <= types <= 256,
                1 <= contexts <= 256,
        ;
    }

    /// Counts one literal in `context`; returns whether the block is full.
    pub fn add_symbol(&mut self, value: usize, context: usize) -> (full: bool)
        requires
            old(self).inv(),
            !old(self).full(),
            old(self).has_room(),
            value < old(self).alphabet_size,
            context < old(self).num_contexts,
        ensures
            final(self).inv(),
            full == final(self).full(),
            final(self).pending@ == old(self).pending@.push(Symbol { value, context }),
            final(self).blocks == old(self).blocks,
            final(self).split == old(self).split,
            final(self).target_block_size == old(self).target_block_size,
            final(self).min_block_size == old(self).min_block_size,
            final(self).alphabet_size == old(self).alphabet_size,
            final(self).num_contexts == old(self).num_contexts,
            final(self).merge_last_count == old(self).merge_last_count,
    {
        let ghost before = *self;
        proof {
            self.lemma_in_table(self.split.num_types as int, context as int);
            lemma_mass_bound(self.histograms@);
        }
        let at: usize = self.split.num_types * self.num_contexts + context;
        assert(self.histograms@[at as int].total <= mass(self.histograms@));
        let mut current: Histogram = Histogram::new(0);
        std::mem::swap(&mut current, &mut self.histograms[at]);
        current.add(value);
        self.histograms.set(at, current);
        self.block_size = self.block_size + 1;
        proof {
            self.pending@ = self.pending@.push(Symbol { value, context });
            assert(self.histograms@ =~= before.histograms@.update(at as int, current));
            lemma_mass_update(before.histograms@, at as int, current);
            assert forall|t: int, c: int, s: int|
                0 <= t < self.split.num_types && 0 <= c < self.num_contexts && 0 <= s
                    < self.alphabet_size implies #[trigger] self.count(t, c, s) == assigned(
                self.split.types@,
                self.blocks@,
                t,
                c,
                s,
            ) by {
                before.lemma_in_table(t, c);
                lemma_cells(
                    self.num_contexts as int,
                    t,
                    c,
                    self.split.num_types as int,
                    context as int,
                );
                assert(before.count(t, c, s) == assigned(
                    self.split.types@,
                    self.blocks@,
                    t,
                    c,
                    s,
                ));
            }
            assert forall|c: int, s: int|
                0 <= c < self.num_contexts && 0 <= s < self.alphabet_size implies #[trigger] self.count(
                self.split.num_types as int,
                c,
                s,
            ) == counted(self.pending@, c, s) by {
                before.lemma_in_table(self.split.num_types as int, c);
                assert(before.count(self.split.num_types as int, c, s) == counted(
                    before.pending@,
                    c,
                    s,
                ));
                assert(self.pending@.drop_last() =~= before.pending@);
                assert(self.pending@.last() == Symbol { value, context });
                assert(counted(self.pending@, c, s) == counted(before.pending@, c, s) + if context
                    == c && value == s {
                    1int
                } else {
                    0int
                });
                lemma_cells(
                    self.num_contexts as int,
                    self.split.num_types as int,
                    c,
                    self.split.num_types as int,
                    context as int,
                );
            }
        }
        self.block_size == self.target_block_size
    }

    /// Returns what the gathered symbols of a context and those of a type count
    /// together.
    pub fn combined(&self, block_type: usize, context: usize) -> (histogram: Histogram)
        requires
            self.inv(),
            self.has_room(),
            block_type < self.split.num_types,
            context < self.num_contexts,
        ensures
            histogram.wf(),
            histogram@.len() == self.alphabet_size,
            forall|s: int|
                0 <= s < self.alphabet_size ==> #[trigger] histogram@[s] == counted(
                    self.pending@,
                    context as int,
                    s,
                ) + assigned(
                    self.split.types@,
                    self.blocks@,
                    block_type as int,
                    context as int,
                    s,
                ),
    {
        proof {
            self.lemma_in_table(block_type as int, context as int);
            self.lemma_in_table(self.split.num_types as int, context as int);
            lemma_cells(
                self.num_contexts as int,
                block_type as int,
                context as int,
                self.split.num_types as int,
                context as int,
            );
            lemma_mass_pair(
                self.histograms@,
                block_type * self.num_contexts + context,
                self.split.num_types * self.num_contexts + context,
            );
        }
        let current: usize = self.split.num_types * self.num_contexts + context;
        let last: usize = block_type * self.num_contexts + context;
        let mut both: Histogram = self.histograms[current].copy();
        both.add_histogram(&self.histograms[last]);
        proof {
            assert forall|s: int| 0 <= s < self.alphabet_size implies #[trigger] both@[s] == counted(
                self.pending@,
                context as int,
                s,
            ) + assigned(
                self.split.types@,
                self.blocks@,
                block_type as int,
                context as int,
                s,
            ) by {
                assert(self.count(self.split.num_types as int, context as int, s) == counted(
                    self.pending@,
                    context as int,
                    s,
                ));
                assert(self.count(block_type as int, context as int, s) == assigned(
                    self.split.types@,
                    self.blocks@,
                    block_type as int,
                    context as int,
                    s,
                ));
            }
        }
        both
    }

    /// Moves the gathered counts into those of a type.
    fn absorb(&mut self, block_type: usize)
        requires
            old(self).shaped(),
            old(self).split.num_types <= old(self).max_block_types,
            old(self).histograms_inv(),
            old(self).histograms@.len() == (old(self).split.num_types + 1) * old(self).num_contexts,
            block_type < old(self).split.num_types,
            mass(old(self).histograms@) <= u32::MAX,
        ensures
            *final(self) == (ContextBlockSplitter {
                histograms: final(self).histograms,
                ..*old(self)
            }),
            final(self).histograms_inv(),
            final(self).histograms@.len() == old(self).histograms@.len(),
            mass(final(self).histograms@) == mass(old(self).histograms@),
            forall|t: int, c: int, s: int|
                0 <= t < old(self).split.num_types && 0 <= c < old(self).num_contexts && 0 <= s
                    < old(self).alphabet_size ==> #[trigger] final(self).count(t, c, s) == old(self).count(t, c, s) + if t == block_type {
                    old(self).count(old(self).split.num_types as int, c, s)
                } else {
                    0
                },
            forall|c: int, s: int|
                0 <= c < old(self).num_contexts && 0 <= s < old(self).alphabet_size
                    ==> #[trigger] final(self).count(old(self).split.num_types as int, c, s) == 0,
    {
        let ghost before = *self;
        let contexts: usize = self.num_contexts;
        let types: usize = self.split.num_types;
        let mut context: usize = 0;
        while context < contexts
            invariant
                before.shaped(),
                before.split.num_types <= before.max_block_types,
                before.histograms_inv(),
                before.histograms@.len() == (before.split.num_types + 1) * before.num_contexts,
                context <= contexts,
                contexts == before.num_contexts,
                types == before.split.num_types,
                block_type < types,
                *self == (ContextBlockSplitter { histograms: self.histograms, ..before }),
                self.histograms_inv(),
                self.histograms@.len() == before.histograms@.len(),
                mass(self.histograms@) == mass(before.histograms@),
                mass(before.histograms@) <= u32::MAX,
                forall|t: int, c: int, s: int|
                    0 <= t < types && 0 <= c < contexts && 0 <= s < before.alphabet_size
                        ==> #[trigger] self.count(t, c, s) == before.count(t, c, s) + if t
                        == block_type && c < context {
                        before.count(types as int, c, s)
                    } else {
                        0
                    },
                forall|c: int, s: int|
                    0 <= c < contexts && 0 <= s < before.alphabet_size ==> #[trigger] self.count(
                        types as int,
                        c,
                        s,
                    ) == if c < context {
                        0
                    } else {
                        before.count(types as int, c, s)
                    },
            decreases contexts - context,
        {
            let ghost earlier = *self;
            proof {
                self.lemma_in_table(block_type as int, context as int);
                self.lemma_in_table(types as int, context as int);
                lemma_cells(
                    contexts as int,
                    block_type as int,
                    context as int,
                    types as int,
                    context as int,
                );
            }
            let into: usize = block_type * contexts + context;
            let from: usize = types * contexts + context;
            proof {
                lemma_mass_pair(self.histograms@, into as int, from as int);
            }
            let mut gathered: Histogram = Histogram::new(0);
            std::mem::swap(&mut gathered, &mut self.histograms[from]);
            let mut held: Histogram = Histogram::new(0);
            std::mem::swap(&mut held, &mut self.histograms[into]);
            let ghost gathered0 = gathered;
            let ghost held0 = held;
            held.add_histogram(&gathered);
            gathered.clear();
            self.histograms.set(into, held);
            self.histograms.set(from, gathered);
            proof {
                let middle = earlier.histograms@.update(into as int, held);
                assert(self.histograms@ =~= middle.update(from as int, gathered));
                lemma_mass_update(earlier.histograms@, into as int, held);
                lemma_mass_update(middle, from as int, gathered);
                assert forall|t: int, c: int, s: int|
                    0 <= t < types && 0 <= c < contexts && 0 <= s < before.alphabet_size implies #[trigger] self.count(
                    t,
                    c,
                    s,
                ) == before.count(t, c, s) + if t == block_type && c < context + 1 {
                    before.count(types as int, c, s)
                } else {
                    0
                } by {
                    earlier.lemma_in_table(t, c);
                    lemma_cells(contexts as int, t, c, block_type as int, context as int);
                    lemma_cells(contexts as int, t, c, types as int, context as int);
                    assert(earlier.count(t, c, s) == before.count(t, c, s) + if t == block_type && c
                        < context {
                        before.count(types as int, c, s)
                    } else {
                        0
                    });
                    assert(earlier.count(types as int, context as int, s) == before.count(
                        types as int,
                        context as int,
                        s,
                    ));
                }
                assert forall|c: int, s: int|
                    0 <= c < contexts && 0 <= s < before.alphabet_size implies #[trigger] self.count(
                    types as int,
                    c,
                    s,
                ) == if c < context + 1 {
                    0
                } else {
                    before.count(types as int, c, s)
                } by {
                    earlier.lemma_in_table(types as int, c);
                    lemma_cells(contexts as int, types as int, c, block_type as int, context as int);
                    lemma_cells(contexts as int, types as int, c, types as int, context as int);
                    assert(earlier.count(types as int, c, s) == if c < context {
                        0
                    } else {
                        before.count(types as int, c, s)
                    });
                }
            }
            context += 1;
        }
    }
}

/// A longer list of lengths spans more.
proof fn lemma_spanned_push(lengths: Seq<u32>, length: u32)
    ensures
        spanned(lengths.push(length)) == spanned(lengths) + length,
{
    assert(lengths.push(length).drop_last() =~= lengths);
}

impl ContextBlockSplitter {
    /// What becomes of the block gathered.
    pub open spec fn outcome(&self, evidence: Evidence) -> Outcome {
        if self.split.types@.len() == 0 {
            Outcome::First
        } else if self.split.num_types < self.max_block_types && evidence.apart_from_last
            && evidence.apart_from_second {
            Outcome::NewType
        } else if evidence.second_closer && self.split.types@.len() > 1 {
            Outcome::SecondLast
        } else {
            Outcome::Merged
        }
    }

    /// The length a block is given: no less than the smallest.
    pub open spec fn given_length(&self) -> int {
        if self.block_size < self.min_block_size {
            self.min_block_size as int
        } else {
            self.block_size as int
        }
    }

    /// The splitter is another one whose gathered block was decided on.
    pub open spec fn decided(&self, before: &Self, outcome: Outcome) -> bool {
        let length = before.given_length() as u32;
        let n = before.split.types@.len();
        &&& self.alphabet_size == before.alphabet_size
        &&& self.num_contexts == before.num_contexts
        &&& self.max_block_types == before.max_block_types
        &&& self.min_block_size == before.min_block_size
        &&& self.pending@ == Seq::<Symbol>::empty()
        &&& self.block_size == 0
        &&& match outcome {
            Outcome::First | Outcome::NewType => {
                &&& self.split.num_types == before.split.num_types + 1
                &&& self.split.types@ == before.split.types@.push(before.split.num_types as u8)
                &&& self.split.lengths@ == before.split.lengths@.push(length)
                &&& self.blocks@ == before.blocks@.push(before.pending@)
                &&& self.target_block_size == before.min_block_size
                &&& self.merge_last_count == 0
            },
            Outcome::SecondLast => {
                &&& self.split.num_types == before.split.num_types
                &&& self.split.types@ == before.split.types@.push(before.split.types@[n - 2])
                &&& self.split.lengths@ == before.split.lengths@.push(length)
                &&& self.blocks@ == before.blocks@.push(before.pending@)
                &&& self.target_block_size == before.min_block_size
                &&& self.merge_last_count == 0
            },
            Outcome::Merged => {
                &&& self.split.num_types == before.split.num_types
                &&& self.split.types@ == before.split.types@
                &&& self.split.lengths@ == before.split.lengths@.update(
                    n - 1,
                    (before.split.lengths@[n - 1] + length) as u32,
                )
                &&& self.blocks@ == before.blocks@.update(
                    n - 1,
                    before.blocks@[n - 1] + before.pending@,
                )
                &&& self.merge_last_count == before.merge_last_count + 1
                &&& self.target_block_size == before.target_block_size + if self.merge_last_count
                    > 1 {
                    before.min_block_size as int
                } else {
                    0
                }
            },
        }
    }

    /// Gives the gathered block a type of its own.
    fn open_type(&mut self)
        requires
            old(self).inv(),
            old(self).has_room(),
            old(self).split.num_types < old(self).max_block_types,
        ensures
            final(self).inv(),
            final(self).decided(old(self), Outcome::NewType),
    {
        let ghost before = *self;
        let size: usize = if self.block_size < self.min_block_size {
            self.min_block_size
        } else {
            self.block_size
        };
        let types: usize = self.split.num_types;
        let contexts: usize = self.num_contexts;
        proof {
            self.lemma_in_table(types as int, 0);
            lemma_spanned_push(self.split.lengths@, size as u32);
        }
        self.split.types.push(types as u8);
        self.split.lengths.push(size as u32);
        self.second_last_type = if types == 0 {
            0
        } else {
            self.last_type
        };
        self.last_type = types;
        self.split.num_types = types + 1;
        let mut made: usize = 0;
        let ghost held = self.histograms@;
        while made < contexts
            invariant
                made <= contexts,
                contexts <= 256,
                held.len() <= 65536 + 256,
                self.histograms@.len() == held.len() + made,
                self.histograms@.take(held.len() as int) == held,
                mass(self.histograms@) == mass(held),
                *self == (ContextBlockSplitter { histograms: self.histograms, ..*self }),
                self.split.num_types == types + 1,
                self.split.types@ == before.split.types@.push(types as u8),
                self.split.lengths@ == before.split.lengths@.push(size as u32),
                self.alphabet_size == before.alphabet_size,
                self.num_contexts == before.num_contexts,
                self.max_block_types == before.max_block_types,
                self.min_block_size == before.min_block_size,
                self.blocks == before.blocks,
                self.pending == before.pending,
                self.last_type == types,
                self.second_last_type == if types == 0 {
                    0
                } else {
                    before.last_type
                },
                forall|i: int|
                    held.len() <= i < self.histograms@.len() ==> (#[trigger] self.histograms@[i]).wf()
                        && self.histograms@[i]@.len() == self.alphabet_size,
                forall|i: int, s: int|
                    held.len() <= i < self.histograms@.len() && 0 <= s < self.alphabet_size
                        ==> #[trigger] self.histograms@[i]@[s] == 0,
            decreases contexts - made,
        {
            let ghost earlier = self.histograms@;
            self.histograms.push(Histogram::new(self.alphabet_size));
            proof {
                assert(self.histograms@.drop_last() =~= earlier);
                assert(self.histograms@.take(held.len() as int) =~= earlier.take(held.len() as int));
            }
            made += 1;
        }
        self.block_size = 0;
        self.merge_last_count = 0;
        self.target_block_size = self.min_block_size;
        proof {
            self.blocks@ = self.blocks@.push(self.pending@);
            self.pending@ = Seq::empty();
            assert((types + 2) * contexts == (types + 1) * contexts + contexts) by (nonlinear_arith);
            assert forall|i: int| 0 <= i < held.len() implies #[trigger] self.histograms@[i]
                == held[i] by {
                assert(self.histograms@.take(held.len() as int)[i] == held[i]);
            }
            assert forall|t: int, c: int, s: int|
                0 <= t < self.split.num_types && 0 <= c < self.num_contexts && 0 <= s
                    < self.alphabet_size implies #[trigger] self.count(t, c, s) == assigned(
                self.split.types@,
                self.blocks@,
                t,
                c,
                s,
            ) by {
                before.lemma_in_table(t, c);
                assert(self.count(t, c, s) == before.count(t, c, s));
                lemma_assigned_push(
                    before.split.types@,
                    before.blocks@,
                    types as u8,
                    before.pending@,
                    t,
                    c,
                    s,
                );
                if t == types {
                    assert(before.count(types as int, c, s) == counted(before.pending@, c, s));
                    lemma_assigned_none(before.split.types@, before.blocks@, t, c, s);
                } else {
                    assert(before.count(t, c, s) == assigned(
                        before.split.types@,
                        before.blocks@,
                        t,
                        c,
                        s,
                    ));
                }
            }
            assert forall|c: int, s: int|
                0 <= c < self.num_contexts && 0 <= s < self.alphabet_size implies #[trigger] self.count(
                self.split.num_types as int,
                c,
                s,
            ) == counted(self.pending@, c, s) by {
                lemma_cells(contexts as int, types + 1, c, types + 2, 0);
                assert(self.histograms@[(types + 1) * contexts + c]@[s] == 0);
            }
            assert forall|i: int| 0 <= i < self.histograms@.len() implies (
            #[trigger] self.histograms@[i]).wf() && self.histograms@[i]@.len()
                == self.alphabet_size by {
                if i < held.len() {
                    assert(self.histograms@[i] == held[i]);
                }
            }
            crate::shared::histogram::lemma_sum_bound(before.split.lengths@);
        }
    }

    /// Lets the gathered block reuse the type of the block before last.
    fn reuse_second_last(&mut self)
        requires
            old(self).inv(),
            old(self).has_room(),
            old(self).split.types@.len() > 1,
        ensures
            final(self).inv(),
            final(self).decided(old(self), Outcome::SecondLast),
    {
        let ghost before = *self;
        let size: usize = if self.block_size < self.min_block_size {
            self.min_block_size
        } else {
            self.block_size
        };
        let reused: usize = self.second_last_type;
        proof {
            lemma_spanned_push(self.split.lengths@, size as u32);
            self.lemma_in_table(0, 0);
        }
        self.absorb(reused);
        let ghost absorbed = *self;
        self.split.types.push(reused as u8);
        self.split.lengths.push(size as u32);
        self.second_last_type = self.last_type;
        self.last_type = reused;
        self.block_size = 0;
        self.merge_last_count = 0;
        self.target_block_size = self.min_block_size;
        proof {
            self.blocks@ = self.blocks@.push(self.pending@);
            self.pending@ = Seq::empty();
            assert forall|t: int, c: int, s: int|
                0 <= t < self.split.num_types && 0 <= c < self.num_contexts && 0 <= s
                    < self.alphabet_size implies #[trigger] self.count(t, c, s) == assigned(
                self.split.types@,
                self.blocks@,
                t,
                c,
                s,
            ) by {
                lemma_assigned_push(
                    before.split.types@,
                    before.blocks@,
                    reused as u8,
                    before.pending@,
                    t,
                    c,
                    s,
                );
                assert(before.count(t, c, s) == assigned(
                    before.split.types@,
                    before.blocks@,
                    t,
                    c,
                    s,
                ));
                assert(before.count(before.split.num_types as int, c, s) == counted(
                    before.pending@,
                    c,
                    s,
                ));
                assert(absorbed.count(t, c, s) == self.count(t, c, s));
            }
            assert forall|c: int, s: int|
                0 <= c < self.num_contexts && 0 <= s < self.alphabet_size implies #[trigger] self.count(
                self.split.num_types as int,
                c,
                s,
            ) == counted(self.pending@, c, s) by {
                assert(absorbed.count(self.split.num_types as int, c, s) == 0);
            }
            crate::shared::histogram::lemma_sum_bound(before.split.lengths@);
        }
    }

    /// Extends the last block with the gathered one.
    fn extend_last(&mut self)
        requires
            old(self).inv(),
            old(self).has_room(),
            old(self).split.types@.len() > 0,
        ensures
            final(self).inv(),
            final(self).decided(old(self), Outcome::Merged),
    {
        let ghost before = *self;
        let size: usize = if self.block_size < self.min_block_size {
            self.min_block_size
        } else {
            self.block_size
        };
        let last: usize = self.last_type;
        let index: usize = self.split.lengths.len() - 1;
        let length: u32 = self.split.lengths[index];
        proof {
            crate::shared::histogram::lemma_sum_bound(self.split.lengths@);
            assert(self.split.lengths@[index as int] <= spanned(self.split.lengths@));
            crate::shared::histogram::lemma_sum_update(
                self.split.lengths@,
                index as int,
                (length + size) as u32,
            );
            self.lemma_in_table(0, 0);
        }
        self.absorb(last);
        let ghost absorbed = *self;
        self.split.lengths.set(index, length + size as u32);
        self.block_size = 0;
        self.merge_last_count = self.merge_last_count + 1;
        if self.merge_last_count > 1 {
            self.target_block_size = self.target_block_size + self.min_block_size;
        }
        proof {
            self.blocks@ = self.blocks@.update(index as int, self.blocks@[index as int] + self.pending@);
            self.pending@ = Seq::empty();
            assert forall|t: int, c: int, s: int|
                0 <= t < self.split.num_types && 0 <= c < self.num_contexts && 0 <= s
                    < self.alphabet_size implies #[trigger] self.count(t, c, s) == assigned(
                self.split.types@,
                self.blocks@,
                t,
                c,
                s,
            ) by {
                lemma_assigned_extend(
                    before.split.types@,
                    before.blocks@,
                    before.pending@,
                    t,
                    c,
                    s,
                );
                assert(before.count(t, c, s) == assigned(
                    before.split.types@,
                    before.blocks@,
                    t,
                    c,
                    s,
                ));
                assert(before.count(before.split.num_types as int, c, s) == counted(
                    before.pending@,
                    c,
                    s,
                ));
                assert(absorbed.count(t, c, s) == self.count(t, c, s));
            }
            assert forall|c: int, s: int|
                0 <= c < self.num_contexts && 0 <= s < self.alphabet_size implies #[trigger] self.count(
                self.split.num_types as int,
                c,
                s,
            ) == counted(self.pending@, c, s) by {
                assert(absorbed.count(self.split.num_types as int, c, s) == 0);
            }
        }
    }

    /// Decides what to do with the block that has just been gathered: it opens a
    /// new block type, reuses the second-last one, or extends the last block.
    pub fn close_block(&mut self, evidence: Evidence) -> (outcome: Outcome)
        requires
            old(self).inv(),
            old(self).has_room(),
        ensures
            final(self).inv(),
            outcome == old(self).outcome(evidence),
            final(self).decided(old(self), outcome),
    {
        if self.split.types.len() == 0 {
            proof {
                let contexts = self.num_contexts as int;
                assert(256int / contexts >= 1) by (nonlinear_arith)
                    requires
                        1 <= contexts <= 256,
                ;
            }
            self.open_type();
            Outcome::First
        } else if self.split.num_types < self.max_block_types && evidence.apart_from_last
            && evidence.apart_from_second {
            self.open_type();
            Outcome::NewType
        } else if evidence.second_closer && self.split.types.len() > 1 {
            self.reuse_second_last();
            Outcome::SecondLast
        } else {
            self.extend_last();
            Outcome::Merged
        }
    }

    /// Decides on the last block and hands the split and its histograms over.
    ///
    /// Every histogram counts the symbols of exactly the blocks of its type.
    pub fn finish_block(&mut self, evidence: Evidence) -> (outcome: Outcome)
        requires
            old(self).inv(),
            old(self).has_room(),
        ensures
            outcome == old(self).outcome(evidence),
            final(self).decided(old(self), outcome),
            final(self).split_inv(),
            final(self).type_counts(),
            final(self).histograms_inv(),
            final(self).histograms@.len() == final(self).split.num_types * final(self).num_contexts,
            final(self).split.num_blocks == final(self).split.types@.len(),
            final(self).split.num_types >= 1,
    {
        let outcome: Outcome = self.close_block(evidence);
        let ghost closed = *self;
        proof {
            self.lemma_in_table(self.split.num_types as int, 0);
            let contexts = self.num_contexts as int;
            let types = self.split.num_types as int;
            assert(types * contexts + contexts == (types + 1) * contexts) by (nonlinear_arith);
        }
        let kept: usize = self.split.num_types * self.num_contexts;
        self.histograms.truncate(kept);
        self.split.num_blocks = self.split.types.len();
        proof {
            assert forall|t: int, c: int, s: int|
                0 <= t < self.split.num_types && 0 <= c < self.num_contexts && 0 <= s
                    < self.alphabet_size implies #[trigger] self.count(t, c, s) == assigned(
                self.split.types@,
                self.blocks@,
                t,
                c,
                s,
            ) by {
                lemma_cells(self.num_contexts as int, t, c, self.split.num_types as int, 0);
                assert(closed.count(t, c, s) == assigned(
                    self.split.types@,
                    self.blocks@,
                    t,
                    c,
                    s,
                ));
            }
        }
        outcome
    }
}

/// No block has a type no block was given.
proof fn lemma_assigned_none(
    types: Seq<u8>,
    blocks: Seq<Seq<Symbol>>,
    block_type: int,
    context: int,
    value: int,
)
    requires
        blocks.len() <= types.len(),
        forall|i: int| 0 <= i < blocks.len() ==> (#[trigger] types[i]) < block_type,
    ensures
        assigned(types, blocks, block_type, context, value) == 0,
    decreases blocks.len(),
{
    if blocks.len() > 0 {
        assert(types[blocks.len() - 1] < block_type);
        lemma_assigned_none(types, blocks.drop_last(), block_type, context, value);
    }
}

/// Greedy splitter for one symbol stream: a splitter with a single context.
pub struct BlockSplitter {
    /// The splitter that does the work.
    pub core: ContextBlockSplitter,
}

impl BlockSplitter {
    /// The splitter is gathering symbols.
    pub open spec fn inv(&self) -> bool {
        self.core.inv() && self.core.num_contexts == 1
    }

    /// Creates a splitter; `min_block_size` is the smallest block it asks about.
    pub fn new(alphabet_size: usize, min_block_size: usize) -> (splitter: Self)
        requires
            1 <= min_block_size <= 0x1000_0000,
        ensures
            splitter.inv(),
            splitter.core.alphabet_size == alphabet_size,
            splitter.core.max_block_types == MAX_NUMBER_OF_BLOCK_TYPES,
            splitter.core.min_block_size == min_block_size,
            splitter.core.target_block_size == min_block_size,
            splitter.core.blocks@ == Seq::<Seq<Symbol>>::empty(),
            splitter.core.pending@ == Seq::<Symbol>::empty(),
            splitter.core.has_room(),
            !splitter.core.full(),
    {
        BlockSplitter { core: ContextBlockSplitter::new(alphabet_size, 1, min_block_size) }
    }

    /// Counts one symbol; returns whether the block is full.
    pub fn add_symbol(&mut self, value: usize) -> (full: bool)
        requires
            old(self).inv(),
            !old(self).core.full(),
            old(self).core.has_room(),
            value < old(self).core.alphabet_size,
        ensures
            final(self).inv(),
            full == final(self).core.full(),
            final(self).core.pending@ == old(self).core.pending@.push(Symbol { value, context: 0 }),
            final(self).core.blocks == old(self).core.blocks,
            final(self).core.split == old(self).core.split,
            final(self).core.target_block_size == old(self).core.target_block_size,
            final(self).core.min_block_size == old(self).core.min_block_size,
            final(self).core.alphabet_size == old(self).core.alphabet_size,
            final(self).core.merge_last_count == old(self).core.merge_last_count,
    {
        self.core.add_symbol(value, 0)
    }

    /// Decides what to do with the block that has just been gathered.
    pub fn close_block(&mut self, evidence: Evidence) -> (outcome: Outcome)
        requires
            old(self).inv(),
            old(self).core.has_room(),
        ensures
            final(self).inv(),
            outcome == old(self).core.outcome(evidence),
            final(self).core.decided(&old(self).core, outcome),
    {
        self.core.close_block(evidence)
    }

    /// Decides on the last block and hands the split and its histograms over.
    pub fn finish_block(&mut self, evidence: Evidence) -> (outcome: Outcome)
        requires
            old(self).inv(),
            old(self).core.has_room(),
        ensures
            outcome == old(self).core.outcome(evidence),
            final(self).core.decided(&old(self).core, outcome),
            final(self).core.split_inv(),
            final(self).core.type_counts(),
            final(self).core.histograms_inv(),
            final(self).core.histograms@.len() == final(self).core.split.num_types,
            final(self).core.split.num_blocks == final(self).core.split.types@.len(),
            final(self).core.split.num_types >= 1,
    {
        let outcome: Outcome = self.core.finish_block(evidence);
        proof {
            vstd::arithmetic::mul::lemma_mul_basics(self.core.split.num_types as int);
        }
        outcome
    }
}

} // verus!
