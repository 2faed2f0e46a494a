//! What a division into blocks owes: where prices add up, no other choice of codes for the
//! symbols costs less, switches included.
use vstd::prelude::*;

use crate::hq::block_splitter;
use crate::hq::block_splitter::SplitCosts;

verus! {

/// Prices add up and compare like the numbers they are worth.
pub open spec fn adds_up<C: SplitCosts>(costs: &C, worth: spec_fn(C::Price) -> int) -> bool {
    &&& worth(costs.zero_of()) == 0
    &&& forall|a: C::Price, b: C::Price| #[trigger]
        worth(costs.plus_of(a, b)) == worth(a) + worth(b)
    &&& forall|a: C::Price, b: C::Price| #[trigger]
        worth(costs.minus_of(a, b)) == worth(a) - worth(b)
    &&& forall|a: C::Price, b: C::Price| #[trigger]
        costs.below_of(a, b) == (worth(a) < worth(b))
    &&& forall|a: C::Price, b: C::Price| #[trigger]
        costs.at_least_of(a, b) == (worth(a) >= worth(b))
    &&& forall|i: int| worth(#[trigger] costs.switch_of(i)) >= 0
}

/// What a symbol costs under a code.
pub open spec fn symbol_worth<C: SplitCosts>(
    costs: &C,
    worth: spec_fn(C::Price) -> int,
    data: Seq<u16>,
    counts: Seq<Seq<u32>>,
    num: int,
    i: int,
    code: int,
) -> int {
    worth(block_splitter::row_of(costs, counts, num, data[i] as int)[code])
}

/// What the first symbols cost with a code each: every symbol under its code, and a switch
/// wherever the code changes.
pub open spec fn total_worth<C: SplitCosts>(
    costs: &C,
    worth: spec_fn(C::Price) -> int,
    data: Seq<u16>,
    counts: Seq<Seq<u32>>,
    num: int,
    codes: spec_fn(int) -> int,
    i: int,
) -> int
    decreases i,
{
    if i <= 0 {
        symbol_worth(costs, worth, data, counts, num, 0, codes(0))
    } else {
        total_worth(costs, worth, data, counts, num, codes, i - 1) + symbol_worth(
            costs,
            worth,
            data,
            counts,
            num,
            i,
            codes(i),
        ) + if codes(i - 1) != codes(i) {
            worth(costs.switch_of(i - 1))
        } else {
            0
        }
    }
}

/// Every code is one of the first `num`.
pub open spec fn codes_within(codes: spec_fn(int) -> int, num: int, length: int) -> bool {
    forall|i: int| 0 <= i < length ==> 0 <= #[trigger] codes(i) < num
}

/// No price that comes up reaches the highest.
pub open spec fn stays_below<C: SplitCosts>(
    costs: &C,
    worth: spec_fn(C::Price) -> int,
    data: Seq<u16>,
    counts: Seq<Seq<u32>>,
    num: int,
) -> bool {
    forall|i: int, k: int|
        0 <= i < data.len() && 0 <= k < num ==> worth(
            #[trigger] block_splitter::arrival_at(costs, data, counts, num, i).0[k],
        ) < worth(costs.highest_of())
}

/// Adding a symbol adds its price to that of every code, and finds the cheapest.
proof fn lemma_advanced<C: SplitCosts>(
    costs: &C,
    worth: spec_fn(C::Price) -> int,
    row: Seq<C::Price>,
    cost: Seq<C::Price>,
    k: int,
    best: int,
    lowest: C::Price,
)
    requires
        adds_up(costs, worth),
        cost.len() == row.len(),
        0 <= k <= row.len(),
    ensures
        ({
            let (arrived, found, least) = block_splitter::advanced(
                costs,
                row,
                cost,
                k,
                best,
                lowest,
            );
            &&& arrived.len() == row.len()
            &&& forall|j: int|
                0 <= j < k ==> #[trigger] arrived[j] == cost[j]
            &&& forall|j: int|
                k <= j < row.len() ==> worth(#[trigger] arrived[j]) == worth(cost[j]) + worth(
                    row[j],
                ) && worth(least) <= worth(arrived[j])
            &&& worth(least) <= worth(lowest)
            &&& (found, least) == (best, lowest) || k <= found < row.len() && arrived[found]
                == least
        }),
    decreases row.len() - k,
{
    if k < row.len() {
        let here = costs.plus_of(cost[k], row[k]);
        let lower = costs.below_of(here, lowest);
        let next = cost.update(k, here);
        let best2 = if lower {
            k
        } else {
            best
        };
        let lowest2 = if lower {
            here
        } else {
            lowest
        };
        lemma_advanced(costs, worth, row, next, k + 1, best2, lowest2);
        let (arrived, found, least) = block_splitter::advanced(
            costs,
            row,
            next,
            k + 1,
            best2,
            lowest2,
        );
        assert(arrived[k] == next[k]);
        assert forall|j: int| 0 <= j < k implies #[trigger] arrived[j] == cost[j] by {
            assert(arrived[j] == next[j]);
        }
        assert forall|j: int| k <= j < row.len() implies worth(#[trigger] arrived[j]) == worth(
            cost[j],
        ) + worth(row[j]) && worth(least) <= worth(arrived[j]) by {
            if j > k {
                assert(next[j] == cost[j]);
            }
        }
    }
}

/// What the codes cost at a symbol: what they did before, and the symbol; the cheapest of
/// them is found.
proof fn lemma_arrival<C: SplitCosts>(
    costs: &C,
    worth: spec_fn(C::Price) -> int,
    data: Seq<u16>,
    counts: Seq<Seq<u32>>,
    num: int,
    i: int,
)
    requires
        adds_up(costs, worth),
        stays_below(costs, worth, data, counts, num),
        0 <= i < data.len(),
        1 <= num,
    ensures
        ({
            let before = block_splitter::cost_before(costs, data, counts, num, i);
            let (arrived, best, lowest) = block_splitter::arrival_at(costs, data, counts, num, i);
            &&& before.len() == num
            &&& arrived.len() == num
            &&& 0 <= best < num
            &&& arrived[best] == lowest
            &&& forall|k: int|
                0 <= k < num ==> worth(#[trigger] arrived[k]) == worth(before[k]) + symbol_worth(
                    costs,
                    worth,
                    data,
                    counts,
                    num,
                    i,
                    k,
                ) && worth(lowest) <= worth(arrived[k])
        }),
    decreases i,
{
    let row = block_splitter::row_of(costs, counts, num, data[i] as int);
    let before = block_splitter::cost_before(costs, data, counts, num, i);
    if i > 0 {
        lemma_arrival(costs, worth, data, counts, num, i - 1);
    }
    assert(before.len() == num);
    lemma_advanced(costs, worth, row, before, 0, 0, costs.highest_of());
    let (arrived, best, lowest) = block_splitter::arrival_at(costs, data, counts, num, i);
    assert(worth(arrived[0]) < worth(costs.highest_of()));
}

/// What a code costs before a symbol, against the symbol before: no more than a switch
/// above the cheapest there.
proof fn lemma_carried_on<C: SplitCosts>(
    costs: &C,
    worth: spec_fn(C::Price) -> int,
    data: Seq<u16>,
    counts: Seq<Seq<u32>>,
    num: int,
    i: int,
    k: int,
)
    requires
        adds_up(costs, worth),
        stays_below(costs, worth, data, counts, num),
        1 <= i < data.len(),
        0 <= k < num,
    ensures
        ({
            let (arrived, best, lowest) = block_splitter::arrival_at(
                costs,
                data,
                counts,
                num,
                i - 1,
            );
            let before = block_splitter::cost_before(costs, data, counts, num, i);
            let switch = worth(costs.switch_of(i - 1));
            let dear = block_splitter::dear_at(costs, data, counts, num, i - 1, k);
            &&& dear <==> worth(arrived[k]) - worth(lowest) >= switch
            &&& worth(before[k]) == if dear {
                switch
            } else {
                worth(arrived[k]) - worth(lowest)
            }
        }),
{
    lemma_arrival(costs, worth, data, counts, num, i - 1);
}

/// What the cheapest codes of the first symbols cost in sum.
pub open spec fn lowest_sum<C: SplitCosts>(
    costs: &C,
    worth: spec_fn(C::Price) -> int,
    data: Seq<u16>,
    counts: Seq<Seq<u32>>,
    num: int,
    i: int,
) -> int
    decreases i,
{
    if i <= 0 {
        0
    } else {
        lowest_sum(costs, worth, data, counts, num, i - 1) + worth(
            block_splitter::arrival_at(costs, data, counts, num, i - 1).2,
        )
    }
}

/// No codes cost less than what the search has come to for the last of them.
proof fn lemma_nothing_cheaper<C: SplitCosts>(
    costs: &C,
    worth: spec_fn(C::Price) -> int,
    data: Seq<u16>,
    counts: Seq<Seq<u32>>,
    num: int,
    codes: spec_fn(int) -> int,
    i: int,
)
    requires
        adds_up(costs, worth),
        stays_below(costs, worth, data, counts, num),
        codes_within(codes, num, data.len() as int),
        1 <= num,
        0 <= i < data.len(),
    ensures
        total_worth(costs, worth, data, counts, num, codes, i) >= worth(
            block_splitter::arrival_at(costs, data, counts, num, i).0[codes(i)],
        ) + lowest_sum(costs, worth, data, counts, num, i),
    decreases i,
{
    lemma_arrival(costs, worth, data, counts, num, i);
    assert(0 <= codes(i) < num);
    let arrived = block_splitter::arrival_at(costs, data, counts, num, i).0;
    let before = block_splitter::cost_before(costs, data, counts, num, i);
    assert(worth(arrived[codes(i)]) == worth(before[codes(i)]) + symbol_worth(
        costs,
        worth,
        data,
        counts,
        num,
        i,
        codes(i),
    ));
    if i > 0 {
        assert(0 <= codes(i - 1) < num);
        lemma_nothing_cheaper(costs, worth, data, counts, num, codes, i - 1);
        lemma_arrival(costs, worth, data, counts, num, i - 1);
        lemma_carried_on(costs, worth, data, counts, num, i, codes(i));
        let (earlier, best, lowest) = block_splitter::arrival_at(costs, data, counts, num, i - 1);
        assert(worth(lowest) <= worth(earlier[codes(i - 1)]));
        assert(worth(costs.switch_of(i - 1)) >= 0);
    }
}

/// The codes the search chooses.
pub open spec fn chosen<C: SplitCosts>(
    costs: &C,
    data: Seq<u16>,
    counts: Seq<Seq<u32>>,
    num: int,
) -> spec_fn(int) -> int {
    |i: int| block_splitter::code_at(costs, data, counts, num, i)
}

/// The codes that are chosen are among those there are, and the last is the cheapest there.
proof fn lemma_chosen_within<C: SplitCosts>(
    costs: &C,
    worth: spec_fn(C::Price) -> int,
    data: Seq<u16>,
    counts: Seq<Seq<u32>>,
    num: int,
    i: int,
)
    requires
        adds_up(costs, worth),
        stays_below(costs, worth, data, counts, num),
        1 <= num,
        0 <= i < data.len(),
    ensures
        0 <= block_splitter::code_at(costs, data, counts, num, i) < num,
    decreases data.len() - i,
{
    lemma_arrival(costs, worth, data, counts, num, i);
    if i + 1 < data.len() {
        lemma_chosen_within(costs, worth, data, counts, num, i + 1);
    } else {
        lemma_arrival(costs, worth, data, counts, num, data.len() - 1);
    }
}

/// The codes that are chosen cost just what the search has come to.
proof fn lemma_chosen_costs<C: SplitCosts>(
    costs: &C,
    worth: spec_fn(C::Price) -> int,
    data: Seq<u16>,
    counts: Seq<Seq<u32>>,
    num: int,
    i: int,
)
    requires
        adds_up(costs, worth),
        stays_below(costs, worth, data, counts, num),
        1 <= num,
        0 <= i < data.len(),
    ensures
        total_worth(costs, worth, data, counts, num, chosen(costs, data, counts, num), i) == worth(
            block_splitter::arrival_at(costs, data, counts, num, i).0[block_splitter::code_at(
                costs,
                data,
                counts,
                num,
                i,
            )],
        ) + lowest_sum(costs, worth, data, counts, num, i),
    decreases i,
{
    let codes = chosen(costs, data, counts, num);
    let code = block_splitter::code_at(costs, data, counts, num, i);
    assert(codes(i) == code);
    lemma_chosen_within(costs, worth, data, counts, num, i);
    lemma_arrival(costs, worth, data, counts, num, i);
    let arrived = block_splitter::arrival_at(costs, data, counts, num, i).0;
    let before = block_splitter::cost_before(costs, data, counts, num, i);
    assert(worth(arrived[code]) == worth(before[code]) + symbol_worth(
        costs,
        worth,
        data,
        counts,
        num,
        i,
        code,
    ));
    if i > 0 {
        let earlier = block_splitter::code_at(costs, data, counts, num, i - 1);
        assert(codes(i - 1) == earlier);
        lemma_chosen_costs(costs, worth, data, counts, num, i - 1);
        lemma_arrival(costs, worth, data, counts, num, i - 1);
        lemma_carried_on(costs, worth, data, counts, num, i, code);
        assert(worth(costs.switch_of(i - 1)) >= 0);
    } else {
        assert(before[code] == costs.zero_of());
    }
}

/// The division into blocks is the cheapest there is: where prices add up, any codes given
/// to the symbols, a switch paid wherever they change, cost at least what the ones that are
/// chosen do.
pub proof fn lemma_division_is_cheapest<C: SplitCosts>(
    costs: &C,
    worth: spec_fn(C::Price) -> int,
    data: Seq<u16>,
    counts: Seq<Seq<u32>>,
    num: int,
    codes: spec_fn(int) -> int,
)
    requires
        adds_up(costs, worth),
        stays_below(costs, worth, data, counts, num),
        codes_within(codes, num, data.len() as int),
        1 <= num,
        data.len() > 0,
    ensures
        total_worth(
            costs,
            worth,
            data,
            counts,
            num,
            chosen(costs, data, counts, num),
            data.len() - 1,
        ) <= total_worth(costs, worth, data, counts, num, codes, data.len() - 1),
{
    let last = data.len() - 1;
    lemma_nothing_cheaper(costs, worth, data, counts, num, codes, last);
    lemma_chosen_costs(costs, worth, data, counts, num, last);
    lemma_arrival(costs, worth, data, counts, num, last);
    let (arrived, best, lowest) = block_splitter::arrival_at(costs, data, counts, num, last);
    assert(0 <= codes(last) < num);
    assert(worth(lowest) <= worth(arrived[codes(last)]));
}

/// Prices compare as numbers do.
pub open spec fn is_ordered<C: SplitCosts>(costs: &C) -> bool {
    &&& forall|a: C::Price| !#[trigger] costs.below_of(a, a)
    &&& forall|a: C::Price, b: C::Price, c: C::Price|
        #![trigger costs.below_of(a, b), costs.below_of(b, c)]
        costs.below_of(a, b) && costs.below_of(b, c) ==> costs.below_of(a, c)
}

/// A block goes to the cheapest cluster: none that was looked at would take it for less, and
/// it stays with the first choice unless one would.
pub proof fn lemma_cluster_is_cheapest<C: SplitCosts>(
    costs: &C,
    block: Seq<u32>,
    counts: Seq<Seq<u32>>,
    clusters: Seq<usize>,
    j: int,
    best: usize,
)
    requires
        is_ordered(costs),
        0 <= j,
    ensures
        ({
            let price = costs.move_of(block, counts[best as int]);
            let got = block_splitter::cheapest(costs, block, counts, clusters, j, best, price);
            let paid = costs.move_of(block, counts[got as int]);
            &&& !costs.below_of(price, paid)
            &&& forall|i: int|
                j <= i < clusters.len() ==> !costs.below_of(
                    costs.move_of(block, counts[#[trigger] clusters[i] as int]),
                    paid,
                )
            &&& got == best || costs.below_of(paid, price) && exists|i: int|
                j <= i < clusters.len() && #[trigger] clusters[i] == got
        }),
    decreases clusters.len() - j,
{
    let price = costs.move_of(block, counts[best as int]);
    if j < clusters.len() {
        let moved = costs.move_of(block, counts[clusters[j] as int]);
        let next = if costs.below_of(moved, price) {
            clusters[j]
        } else {
            best
        };
        lemma_cluster_is_cheapest(costs, block, counts, clusters, j + 1, next);
        let got = block_splitter::cheapest(costs, block, counts, clusters, j, best, price);
        let paid = costs.move_of(block, counts[got as int]);
        let tried = costs.move_of(block, counts[next as int]);
        assert(!costs.below_of(tried, paid));
        if costs.below_of(moved, price) {
            assert(clusters[j] == next);
            if costs.below_of(price, paid) {
                assert(costs.below_of(moved, paid));
            }
            if got != next {
                assert(costs.below_of(paid, tried));
                assert(costs.below_of(paid, price));
            }
        } else {
            if costs.below_of(moved, paid) {
                if got != best {
                    assert(costs.below_of(paid, price));
                    assert(costs.below_of(moved, price));
                }
            }
        }
    }
}

} // verus!
