//! The dynamic program's nodes and the queue of command starts.
use vstd::prelude::*;

use crate::greedy::backward_references::Command;

verus! {

/// How many command starts are kept.
pub const QUEUE_SIZE: usize = 8;

/// How a position is reached: the last command that ends there.
#[derive(Copy, Clone)]
pub struct ZopfliNode<P> {
    /// Bytes the command copies; one for a position no command reaches.
    pub copy_length: usize,
    /// The length its code is chosen by.
    pub length_code: usize,
    /// How far back the copy starts.
    pub distance: usize,
    /// The short distance code plus one, or zero.
    pub short_code: usize,
    /// Literals before the copy.
    pub insert_length: usize,
    /// What it costs to get here.
    pub cost: P,
    /// The position whose command supplies the next cached distance.
    pub shortcut: usize,
    /// The length of the command that follows, on the chosen path.
    pub next: Option<usize>,
}

impl<P: Copy> ZopfliNode<P> {
    /// A position no command reaches.
    pub open spec fn stub(cost: P) -> Self {
        ZopfliNode {
            copy_length: 1,
            length_code: 1,
            distance: 0,
            short_code: 0,
            insert_length: 0,
            cost,
            shortcut: 0,
            next: None,
        }
    }

    /// Returns a position no command reaches.
    pub fn blank(cost: P) -> (node: Self)
        ensures
            node == Self::stub(cost),
    {
        ZopfliNode {
            copy_length: 1,
            length_code: 1,
            distance: 0,
            short_code: 0,
            insert_length: 0,
            cost,
            shortcut: 0,
            next: None,
        }
    }

    /// A command ends here.
    pub open spec fn reached(&self) -> bool {
        self.copy_length >= 2
    }

    /// Returns whether a command ends here.
    pub fn is_reached(&self) -> (reached: bool)
        ensures
            reached == self.reached(),
    {
        self.copy_length >= 2
    }

    /// The length of the whole command.
    pub open spec fn command_len(&self) -> int {
        self.copy_length + self.insert_length
    }

    /// The intermediate distance code.
    pub open spec fn code(&self) -> int {
        if self.short_code == 0 {
            self.distance + 15
        } else {
            self.short_code - 1
        }
    }

    /// Returns the intermediate distance code.
    pub fn distance_code(&self) -> (code: usize)
        requires
            self.distance + 15 <= usize::MAX,
        ensures
            code == self.code(),
    {
        if self.short_code == 0 {
            self.distance + 15
        } else {
            self.short_code - 1
        }
    }
}

/// A command start and what is known there.
#[derive(Copy, Clone)]
pub struct PosData<P> {
    /// The position.
    pub pos: usize,
    /// The four distances in effect.
    pub distance_cache: [i32; 4],
    /// What it costs to get here.
    pub cost: P,
    /// How much less that is than literals all the way.
    pub costdiff: P,
}

/// What commands cost, and how costs compare.
///
/// Costs are fractions of bits, so a model keeps them in a type of its own. A model
/// is a table: it answers alike whenever it is asked alike. The search asks for sums
/// and comparisons, and what it records is sound whatever the answers are.
pub trait CostModel: Sized {
    /// A cost.
    type Price: Copy;

    /// The answer of [`CostModel::zero`].
    open spec fn zero_of(&self) -> Self::Price {
        arbitrary()
    }

    /// No cost at all.
    fn zero(&self) -> (price: Self::Price)
        ensures
            price == self.zero_of(),
    ;

    /// The answer of [`CostModel::infinite`].
    open spec fn infinite_of(&self) -> Self::Price {
        arbitrary()
    }

    /// More than any command costs.
    fn infinite(&self) -> (price: Self::Price)
        ensures
            price == self.infinite_of(),
    ;

    /// The answer of [`CostModel::plus`].
    open spec fn plus_of(&self, left: Self::Price, right: Self::Price) -> Self::Price {
        arbitrary()
    }

    /// One cost on top of another.
    fn plus(&self, left: Self::Price, right: Self::Price) -> (price: Self::Price)
        ensures
            price == self.plus_of(left, right),
    ;

    /// The answer of [`CostModel::minus`].
    open spec fn minus_of(&self, left: Self::Price, right: Self::Price) -> Self::Price {
        arbitrary()
    }

    /// How much more the first cost is.
    fn minus(&self, left: Self::Price, right: Self::Price) -> (price: Self::Price)
        ensures
            price == self.minus_of(left, right),
    ;

    /// The answer of [`CostModel::bits`].
    open spec fn bits_of(&self, count: u32) -> Self::Price {
        arbitrary()
    }

    /// The cost of whole bits.
    fn bits(&self, count: u32) -> (price: Self::Price)
        ensures
            price == self.bits_of(count),
    ;

    /// The answer of [`CostModel::below`].
    open spec fn below_of(&self, left: Self::Price, right: Self::Price) -> bool {
        arbitrary()
    }

    /// Whether the first cost is strictly lower.
    fn below(&self, left: Self::Price, right: Self::Price) -> (lower: bool)
        ensures
            lower == self.below_of(left, right),
    ;

    /// The answer of [`CostModel::at_most`].
    open spec fn at_most_of(&self, left: Self::Price, right: Self::Price) -> bool {
        arbitrary()
    }

    /// Whether the first cost is no higher.
    fn at_most(&self, left: Self::Price, right: Self::Price) -> (no_higher: bool)
        ensures
            no_higher == self.at_most_of(left, right),
    ;

    /// The answer of [`CostModel::literal_costs`].
    open spec fn literals_of(&self, from: int, to: int) -> Self::Price {
        arbitrary()
    }

    /// The cost of the literals between two positions of the block.
    fn literal_costs(&self, from: usize, to: usize) -> (price: Self::Price)
        ensures
            price == self.literals_of(from as int, to as int),
    ;

    /// The answer of [`CostModel::command_cost`].
    open spec fn command_of(&self, code: int) -> Self::Price {
        arbitrary()
    }

    /// The cost of a command code.
    fn command_cost(&self, code: usize) -> (price: Self::Price)
        ensures
            price == self.command_of(code as int),
    ;

    /// The answer of [`CostModel::distance_cost`].
    open spec fn distance_of(&self, symbol: int) -> Self::Price {
        arbitrary()
    }

    /// The cost of a distance symbol.
    fn distance_cost(&self, symbol: usize) -> (price: Self::Price)
        ensures
            price == self.distance_of(symbol as int),
    ;

    /// The answer of [`CostModel::min_cost_cmd`].
    open spec fn least_of(&self) -> Self::Price {
        arbitrary()
    }

    /// The least any command costs.
    fn min_cost_cmd(&self) -> (price: Self::Price)
        ensures
            price == self.least_of(),
    ;

    /// The model once a block is priced by how costly its literals look.
    open spec fn by_literals(&self, position: int, data: Seq<u8>, mask: usize, bytes: int) -> Self {
        arbitrary()
    }

    /// Prices the block at `position` by how costly its literals look.
    fn set_from_literal_costs(&mut self, position: usize, data: &[u8], mask: usize, bytes: usize)
        ensures
            *final(self) == old(self).by_literals(position as int, data@, mask, bytes as int),
    ;

    /// The model once a block is priced by the commands an earlier pass chose.
    open spec fn by_commands(
        &self,
        position: int,
        data: Seq<u8>,
        mask: usize,
        commands: Seq<Command>,
        last_insert_len: int,
        bytes: int,
    ) -> Self {
        arbitrary()
    }

    /// Prices the block at `position` by the commands an earlier pass chose.
    fn set_from_commands(
        &mut self,
        position: usize,
        data: &[u8],
        mask: usize,
        commands: &[Command],
        last_insert_len: usize,
        bytes: usize,
    )
        ensures
            *final(self) == old(self).by_commands(
                position as int,
                data@,
                mask,
                commands@,
                last_insert_len as int,
                bytes as int,
            ),
    ;
}

/// Prices in whole units, the same for every block.
#[derive(Clone, Debug)]
pub struct PriceTable {
    /// What a literal costs.
    pub literal: u64,
    /// What the command codes cost; those past the table cost nothing.
    pub commands: Vec<u64>,
    /// What the distance symbols cost; those past the table cost nothing.
    pub distances: Vec<u64>,
    /// The least any command costs.
    pub least: u64,
}

/// The sum of two prices, or the highest price there is.
pub open spec fn capped_sum(left: u64, right: u64) -> u64 {
    if left + right > u64::MAX {
        u64::MAX
    } else {
        (left + right) as u64
    }
}

/// A price of a table.
pub open spec fn listed(prices: Seq<u64>, index: int) -> u64 {
    if 0 <= index < prices.len() {
        prices[index]
    } else {
        0
    }
}

/// Returns a price of a table.
fn price_in(prices: &Vec<u64>, index: usize) -> (price: u64)
    ensures
        price == listed(prices@, index as int),
{
    if index < prices.len() {
        prices[index]
    } else {
        0
    }
}

impl CostModel for PriceTable {
    type Price = u64;

    open spec fn zero_of(&self) -> u64 {
        0
    }

    fn zero(&self) -> u64 {
        0
    }

    open spec fn infinite_of(&self) -> u64 {
        u64::MAX
    }

    fn infinite(&self) -> u64 {
        u64::MAX
    }

    open spec fn plus_of(&self, left: u64, right: u64) -> u64 {
        capped_sum(left, right)
    }

    fn plus(&self, left: u64, right: u64) -> u64 {
        if left > u64::MAX - right {
            u64::MAX
        } else {
            left + right
        }
    }

    open spec fn minus_of(&self, left: u64, right: u64) -> u64 {
        if left < right {
            0
        } else {
            (left - right) as u64
        }
    }

    fn minus(&self, left: u64, right: u64) -> u64 {
        if left < right {
            0
        } else {
            left - right
        }
    }

    open spec fn bits_of(&self, count: u32) -> u64 {
        count as u64
    }

    fn bits(&self, count: u32) -> u64 {
        count as u64
    }

    open spec fn below_of(&self, left: u64, right: u64) -> bool {
        left < right
    }

    fn below(&self, left: u64, right: u64) -> bool {
        left < right
    }

    open spec fn at_most_of(&self, left: u64, right: u64) -> bool {
        left <= right
    }

    fn at_most(&self, left: u64, right: u64) -> bool {
        left <= right
    }

    open spec fn literals_of(&self, from: int, to: int) -> u64 {
        if to <= from {
            0
        } else if self.literal * (to - from) > u64::MAX {
            u64::MAX
        } else {
            (self.literal * (to - from)) as u64
        }
    }

    fn literal_costs(&self, from: usize, to: usize) -> u64 {
        if to <= from {
            return 0;
        }
        match self.literal.checked_mul((to - from) as u64) {
            Some(price) => price,
            None => u64::MAX,
        }
    }

    open spec fn command_of(&self, code: int) -> u64 {
        listed(self.commands@, code)
    }

    fn command_cost(&self, code: usize) -> u64 {
        price_in(&self.commands, code)
    }

    open spec fn distance_of(&self, symbol: int) -> u64 {
        listed(self.distances@, symbol)
    }

    fn distance_cost(&self, symbol: usize) -> u64 {
        price_in(&self.distances, symbol)
    }

    open spec fn least_of(&self) -> u64 {
        self.least
    }

    fn min_cost_cmd(&self) -> u64 {
        self.least
    }

    open spec fn by_literals(&self, position: int, data: Seq<u8>, mask: usize, bytes: int) -> Self {
        *self
    }

    fn set_from_literal_costs(&mut self, position: usize, data: &[u8], mask: usize, bytes: usize) {
    }

    open spec fn by_commands(
        &self,
        position: int,
        data: Seq<u8>,
        mask: usize,
        commands: Seq<Command>,
        last_insert_len: int,
        bytes: int,
    ) -> Self {
        *self
    }

    fn set_from_commands(
        &mut self,
        position: usize,
        data: &[u8],
        mask: usize,
        commands: &[Command],
        last_insert_len: usize,
        bytes: usize,
    ) {
    }
}

/// What stays of a full queue when one more start comes in.
pub open spec fn with_room<P>(entries: Seq<PosData<P>>) -> Seq<PosData<P>> {
    if entries.len() == QUEUE_SIZE {
        entries.drop_last()
    } else {
        entries
    }
}

/// The command starts worth expanding, the most promising first.
pub struct StartPosQueue<P> {
    /// The starts.
    pub entries: Vec<PosData<P>>,
}

impl<P: Copy> StartPosQueue<P> {
    /// At most eight starts are kept.
    pub open spec fn wf(&self) -> bool {
        self.entries@.len() <= QUEUE_SIZE
    }

    /// Creates an empty queue.
    pub fn new() -> (queue: Self)
        ensures
            queue.wf(),
            queue.entries@.len() == 0,
    {
        StartPosQueue { entries: Vec::new() }
    }

    /// Forgets every start.
    pub fn clear(&mut self)
        ensures
            final(self).wf(),
            final(self).entries@.len() == 0,
    {
        self.entries.clear();
    }

    /// Returns how many starts there are.
    pub fn len(&self) -> (n: usize)
        ensures
            n == self.entries@.len(),
    {
        self.entries.len()
    }

    /// Adds a start where its price puts it; of nine, the least promising goes.
    ///
    /// The others keep their order, whatever the prices say.
    pub fn push<C: CostModel<Price = P>>(&mut self, model: &C, entry: PosData<P>)
        requires
            old(self).wf(),
        ensures
            final(self).wf(),
            final(self).entries@ == queued(model, old(self).entries@, entry),
            exists|k: int|
                0 <= k <= with_room(old(self).entries@).len() && final(self).entries@
                    == #[trigger] with_room(old(self).entries@).insert(k, entry),
    {
        let ghost before = self.entries@;
        if self.entries.len() == QUEUE_SIZE {
            let _ = self.entries.pop();
        }
        let ghost kept = self.entries@;
        assert(kept =~= with_room(before));
        self.entries.insert(0, entry);
        let mut at: usize = 0;
        assert(self.entries@ =~= kept.insert(0, entry));
        let ghost whole = queued(model, before, entry);
        // One pass of neighbour swaps takes the new start to its place.
        while at + 1 < self.entries.len()
            invariant_except_break
                sunk(model, self.entries@, at as int) == whole,
            invariant
                at < self.entries@.len(),
                kept.len() + 1 == self.entries@.len(),
                self.entries@.len() <= QUEUE_SIZE,
                self.entries@ == kept.insert(at as int, entry),
            ensures
                self.entries@ == whole,
                exists|k: int|
                    0 <= k <= kept.len() && self.entries@ == #[trigger] kept.insert(k, entry),
                self.entries@.len() <= QUEUE_SIZE,
            decreases self.entries@.len() - at,
        {
            let current: PosData<P> = self.entries[at];
            let following: PosData<P> = self.entries[at + 1];
            if !model.below(following.costdiff, current.costdiff) {
                break;
            }
            self.entries.set(at, following);
            self.entries.set(at + 1, current);
            proof {
                assert(self.entries@ =~= kept.insert(at + 1, entry));
            }
            at += 1;
        }
    }
}

/// A start moves down past those that save more.
pub open spec fn sunk<C: CostModel>(model: &C, entries: Seq<PosData<C::Price>>, at: int) -> Seq<
    PosData<C::Price>,
>
    decreases entries.len() - at,
{
    if 0 <= at && at + 1 < entries.len() && model.below_of(
        entries[at + 1].costdiff,
        entries[at].costdiff,
    ) {
        sunk(model, entries.update(at, entries[at + 1]).update(at + 1, entries[at]), at + 1)
    } else {
        entries
    }
}

/// The queue with one more start, where its price puts it.
pub open spec fn queued<C: CostModel>(
    model: &C,
    entries: Seq<PosData<C::Price>>,
    entry: PosData<C::Price>,
) -> Seq<PosData<C::Price>> {
    sunk(model, with_room(entries).insert(0, entry), 0)
}

} // verus!
