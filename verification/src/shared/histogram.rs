//! Symbol counts.
use vstd::prelude::*;


verus! {

/// Number of literal symbols.
pub const NUM_LITERAL_SYMBOLS: usize = 256;

/// How often each symbol of an alphabet occurred.
pub struct Histogram {
    /// One count per symbol.
    pub data: Vec<u32>,
    /// All of them together.
    pub total: usize,
}

/// The sum of a list of counts.
pub open spec fn sum(counts: Seq<u32>) -> int
    decreases counts.len(),
{
    if counts.len() == 0 {
        0
    } else {
        sum(counts.drop_last()) + counts.last()
    }
}

/// A sum is not negative, and no count exceeds it.
pub proof fn lemma_sum_bound(counts: Seq<u32>)
    ensures
        sum(counts) >= 0,
        forall|i: int| 0 <= i < counts.len() ==> #[trigger] counts[i] <= sum(counts),
    decreases counts.len(),
{
    if counts.len() > 0 {
        lemma_sum_bound(counts.drop_last());
        assert forall|i: int| 0 <= i < counts.len() implies #[trigger] counts[i] <= sum(counts) by {
            if i < counts.len() - 1 {
                assert(counts.drop_last()[i] <= sum(counts.drop_last()));
            }
        }
    }
}

/// Changing one count changes the sum by as much.
pub proof fn lemma_sum_update(counts: Seq<u32>, i: int, value: u32)
    requires
        0 <= i < counts.len(),
    ensures
        sum(counts.update(i, value)) == sum(counts) - counts[i] + value,
    decreases counts.len(),
{
    if i == counts.len() - 1 {
        assert(counts.update(i, value).drop_last() =~= counts.drop_last());
    } else {
        lemma_sum_update(counts.drop_last(), i, value);
        assert(counts.update(i, value).drop_last() =~= counts.drop_last().update(i, value));
    }
}

/// A list of zeros sums to zero.
pub proof fn lemma_sum_zero(counts: Seq<u32>)
    requires
        forall|i: int| 0 <= i < counts.len() ==> counts[i] == 0,
    ensures
        sum(counts) == 0,
    decreases counts.len(),
{
    if counts.len() > 0 {
        lemma_sum_zero(counts.drop_last());
    }
}

/// Lists added place by place add up.
pub proof fn lemma_sum_add(left: Seq<u32>, right: Seq<u32>, both: Seq<u32>)
    requires
        left.len() == right.len(),
        left.len() == both.len(),
        forall|i: int| 0 <= i < left.len() ==> #[trigger] both[i] == left[i] + right[i],
    ensures
        sum(both) == sum(left) + sum(right),
    decreases left.len(),
{
    if left.len() > 0 {
        let n = left.len() - 1;
        assert(both[n] == left[n] + right[n]);
        assert forall|i: int| 0 <= i < left.drop_last().len() implies #[trigger] both.drop_last()[i]
            == left.drop_last()[i] + right.drop_last()[i] by {
            assert(both[i] == left[i] + right[i]);
        }
        lemma_sum_add(left.drop_last(), right.drop_last(), both.drop_last());
    }
}

impl View for Histogram {
    type V = Seq<u32>;

    open spec fn view(&self) -> Seq<u32> {
        self.data@
    }
}

impl Histogram {
    /// The total is the sum of the counts, and fits one count.
    pub open spec fn wf(&self) -> bool {
        self.total == sum(self@) && self.total <= u32::MAX
    }

    /// Creates a histogram of an alphabet, all counts zero.
    pub fn new(size: usize) -> (histogram: Self)
        ensures
            histogram.wf(),
            histogram.total == 0,
            histogram@.len() == size,
            forall|i: int| 0 <= i < size ==> #[trigger] histogram@[i] == 0,
    {
        let data: Vec<u32> = vec![0u32; size];
        proof {
            lemma_sum_zero(data@);
        }
        Histogram { data, total: 0 }
    }

    /// Counts one symbol.
    pub fn add(&mut self, symbol: usize)
        requires
            old(self).wf(),
            symbol < old(self)@.len(),
            old(self).total < u32::MAX,
        ensures
            final(self).wf(),
            final(self)@ == old(self)@.update(symbol as int, final(self)@[symbol as int]),
            final(self)@[symbol as int] == old(self)@[symbol as int] + 1,
            final(self).total == old(self).total + 1,
    {
        proof {
            lemma_sum_bound(self@);
            lemma_sum_update(self@, symbol as int, (self@[symbol as int] + 1) as u32);
        }
        let count: u32 = self.data[symbol];
        self.data.set(symbol, count + 1);
        self.total = self.total + 1;
    }

    /// Takes every count back to zero.
    pub fn clear(&mut self)
        ensures
            final(self).wf(),
            final(self).total == 0,
            final(self)@.len() == old(self)@.len(),
            forall|i: int| 0 <= i < final(self)@.len() ==> #[trigger] final(self)@[i] == 0,
    {
        let n: usize = self.data.len();
        self.data = vec![0u32; n];
        self.total = 0;
        proof {
            lemma_sum_zero(self@);
        }
    }

    /// Adds another histogram's counts.
    pub fn add_histogram(&mut self, other: &Histogram)
        requires
            old(self).wf(),
            other.wf(),
            old(self)@.len() == other@.len(),
            old(self).total + other.total <= u32::MAX,
        ensures
            final(self).wf(),
            final(self).total == old(self).total + other.total,
            final(self)@.len() == old(self)@.len(),
            forall|i: int|
                0 <= i < old(self)@.len() ==> #[trigger] final(self)@[i] == old(self)@[i] + other@[i],
    {
        let n: usize = self.data.len();
        let ghost before = self@;
        proof {
            lemma_sum_bound(before);
            lemma_sum_bound(other@);
        }
        let mut i: usize = 0;
        while i < n
            invariant
                i <= n,
                n == before.len(),
                self.data@.len() == n,
                other.data@.len() == n,
                self.total == old(self).total,
                sum(before) + sum(other@) <= u32::MAX,
                forall|j: int| 0 <= j < n ==> #[trigger] before[j] <= sum(before),
                forall|j: int| 0 <= j < n ==> #[trigger] other@[j] <= sum(other@),
                forall|j: int| 0 <= j < i ==> #[trigger] self.data@[j] == before[j] + other@[j],
                forall|j: int| i <= j < n ==> #[trigger] self.data@[j] == before[j],
            decreases n - i,
        {
            let left: u32 = self.data[i];
            let right: u32 = other.data[i];
            assert(before[i as int] <= sum(before) && other@[i as int] <= sum(other@));
            self.data.set(i, left + right);
            i += 1;
        }
        self.total = self.total + other.total;
        proof {
            lemma_sum_add(before, other@, self@);
        }
    }

    /// Copies a histogram.
    pub fn copy(&self) -> (histogram: Self)
        requires
            self.wf(),
        ensures
            histogram.wf(),
            histogram@ == self@,
            histogram.total == self.total,
    {
        let n: usize = self.data.len();
        let mut data: Vec<u32> = Vec::new();
        let mut i: usize = 0;
        while i < n
            invariant
                i <= n,
                n == self.data@.len(),
                data@ == self.data@.take(i as int),
            decreases n - i,
        {
            data.push(self.data[i]);
            proof {
                assert(data@ =~= self.data@.take(i + 1));
            }
            i += 1;
        }
        proof {
            assert(data@ =~= self.data@);
        }
        Histogram { data, total: self.total }
    }
}

} // verus!
