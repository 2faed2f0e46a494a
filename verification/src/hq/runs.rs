//! Runs of equal ids, and ids numbered in order of appearance.
use vstd::prelude::*;

use crate::math;

verus! {

/// The lengths of the runs of equal ids.
pub open spec fn runs_of<T>(ids: Seq<T>) -> Seq<int>
    decreases ids.len(),
{
    if ids.len() == 0 {
        Seq::empty()
    } else {
        let before = runs_of(ids.drop_last());
        if ids.len() >= 2 && ids.last() == ids[ids.len() - 2] {
            before.update(before.len() - 1, before.last() + 1)
        } else {
            before.push(1)
        }
    }
}

/// The sum of a list of lengths.
pub open spec fn total(lengths: Seq<int>) -> int
    decreases lengths.len(),
{
    if lengths.len() == 0 {
        0
    } else {
        total(lengths.drop_last()) + lengths.last()
    }
}

/// How often neighbouring ids differ from a position on.
pub open spec fn changes_from<T>(ids: Seq<T>, i: int) -> int
    decreases ids.len() - i,
{
    if i + 1 >= ids.len() {
        0
    } else {
        changes_from(ids, i + 1) + if ids[i] != ids[i + 1] {
            1int
        } else {
            0
        }
    }
}

/// Runs are not empty and cover every id.
pub proof fn lemma_runs_cover<T>(ids: Seq<T>)
    ensures
        total(runs_of(ids)) == ids.len(),
        runs_of(ids).len() <= ids.len(),
        ids.len() > 0 ==> runs_of(ids).len() > 0,
        forall|i: int| 0 <= i < runs_of(ids).len() ==> 1 <= #[trigger] runs_of(ids)[i],
    decreases ids.len(),
{
    if ids.len() > 0 {
        let before = runs_of(ids.drop_last());
        lemma_runs_cover(ids.drop_last());
        let after = runs_of(ids);
        assert(after.drop_last() =~= if after.len() == before.len() {
            before.drop_last()
        } else {
            before
        });
    }
}

/// One run more than there are changes.
pub proof fn lemma_runs_count<T>(ids: Seq<T>)
    requires
        ids.len() > 0,
    ensures
        runs_of(ids).len() == 1 + changes_from(ids, 0),
    decreases ids.len(),
{
    if ids.len() >= 2 {
        lemma_runs_count(ids.drop_last());
        lemma_changes_last(ids, 0);
        lemma_runs_cover(ids.drop_last());
    } else {
        assert(runs_of(ids.drop_last()) =~= Seq::empty());
    }
}

/// The last change counted apart.
proof fn lemma_changes_last<T>(ids: Seq<T>, i: int)
    requires
        ids.len() >= 2,
        0 <= i <= ids.len() - 2,
    ensures
        changes_from(ids, i) == changes_from(ids.drop_last(), i) + if ids[ids.len() - 2] != ids.last() {
            1int
        } else {
            0
        },
    decreases ids.len() - i,
{
    if i < ids.len() - 2 {
        lemma_changes_last(ids, i + 1);
    } else {
        assert(changes_from(ids, i + 1) == 0);
    }
}

/// Changes depend on the ids they look at.
pub proof fn lemma_changes_frame<T>(before: Seq<T>, after: Seq<T>, i: int)
    requires
        before.len() == after.len(),
        forall|j: int| i <= j < before.len() ==> #[trigger] before[j] == after[j],
        0 <= i,
    ensures
        changes_from(before, i) == changes_from(after, i),
    decreases before.len() - i,
{
    if i + 1 < before.len() {
        lemma_changes_frame(before, after, i + 1);
    }
}

/// Returns the lengths of the runs of equal ids.
pub fn run_lengths(ids: &[u8]) -> (lengths: Vec<u32>)
    requires
        ids@.len() <= u32::MAX,
    ensures
        lengths@.len() == runs_of(ids@).len(),
        forall|i: int| 0 <= i < lengths@.len() ==> #[trigger] lengths@[i] == runs_of(ids@)[i],
{
    let mut lengths: Vec<u32> = Vec::new();
    let mut i: usize = 0;
    while i < ids.len()
        invariant
            ids@.len() <= u32::MAX,
            i <= ids@.len(),
            lengths@.len() == runs_of(ids@.take(i as int)).len(),
            forall|j: int|
                0 <= j < lengths@.len() ==> #[trigger] lengths@[j] == runs_of(
                    ids@.take(i as int),
                )[j],
        decreases ids@.len() - i,
    {
        proof {
            assert(ids@.take(i + 1).drop_last() =~= ids@.take(i as int));
            lemma_runs_cover(ids@.take(i as int));
            lemma_part_bound(runs_of(ids@.take(i as int)));
        }
        if i > 0 && ids[i] == ids[i - 1] {
            let last: usize = lengths.len() - 1;
            let so_far: u32 = lengths[last];
            lengths.set(last, so_far + 1);
        } else {
            lengths.push(1);
        }
        i += 1;
    }
    assert(ids@.take(ids@.len() as int) =~= ids@);
    lengths
}

/// No part of a sum of positive lengths exceeds it.
pub proof fn lemma_part_bound(lengths: Seq<int>)
    requires
        forall|i: int| 0 <= i < lengths.len() ==> 1 <= #[trigger] lengths[i],
    ensures
        total(lengths) >= 0,
        forall|i: int| 0 <= i < lengths.len() ==> #[trigger] lengths[i] <= total(lengths),
    decreases lengths.len(),
{
    if lengths.len() > 0 {
        lemma_part_bound(lengths.drop_last());
        assert forall|i: int| 0 <= i < lengths.len() implies #[trigger] lengths[i] <= total(
            lengths,
        ) by {
            if i < lengths.len() - 1 {
                assert(lengths.drop_last()[i] <= total(lengths.drop_last()));
            }
        }
    }
}

/// The distinct ids of a list, in order of appearance.
pub open spec fn appeared<T>(ids: Seq<T>) -> Seq<T>
    decreases ids.len(),
{
    if ids.len() == 0 {
        Seq::empty()
    } else {
        let before = appeared(ids.drop_last());
        if before.contains(ids.last()) {
            before
        } else {
            before.push(ids.last())
        }
    }
}

/// The distinct ids are distinct, and they are the ids of the list.
pub proof fn lemma_appeared<T>(ids: Seq<T>)
    ensures
        appeared(ids).no_duplicates(),
        forall|i: int| 0 <= i < ids.len() ==> #[trigger] appeared(ids).contains(ids[i]),
        forall|k: int| 0 <= k < appeared(ids).len() ==> ids.contains(#[trigger] appeared(ids)[k]),
        appeared(ids).len() <= ids.len(),
    decreases ids.len(),
{
    if ids.len() > 0 {
        let rest = ids.drop_last();
        let before = appeared(rest);
        lemma_appeared(rest);
        let now = appeared(ids);
        assert forall|i: int| 0 <= i < ids.len() implies #[trigger] now.contains(ids[i]) by {
            if i < ids.len() - 1 {
                assert(before.contains(rest[i]));
                let k = choose|k: int| 0 <= k < before.len() && before[k] == ids[i];
                assert(now[k] == ids[i]);
            } else if !before.contains(ids.last()) {
                assert(now[before.len() as int] == ids.last());
            }
        }
        assert forall|k: int| 0 <= k < now.len() implies ids.contains(#[trigger] now[k]) by {
            if k < before.len() {
                assert(rest.contains(before[k]));
                let j = choose|j: int| 0 <= j < rest.len() && rest[j] == before[k];
                assert(ids[j] == now[k]);
            } else {
                assert(ids[ids.len() - 1] == now[k]);
            }
        }
    }
}

/// An id's number: where it appeared among the distinct ids.
pub open spec fn number_in<T>(order: Seq<T>, id: T) -> int {
    order.index_of(id)
}

/// Returns the ids numbered in order of appearance, and how many numbers there
/// are.
pub fn renumber(ids: &Vec<usize>, bound: usize) -> (out: (Vec<usize>, usize))
    requires
        forall|i: int| 0 <= i < ids@.len() ==> #[trigger] ids@[i] < bound,
        bound < usize::MAX,
    ensures
        out.1 == appeared(ids@).len(),
        out.1 <= bound,
        out.0@.len() == ids@.len(),
        forall|i: int|
            0 <= i < ids@.len() ==> #[trigger] out.0@[i] == number_in(appeared(ids@), ids@[i])
                && out.0@[i] < out.1 && appeared(ids@)[out.0@[i] as int] == ids@[i],
{
    let mut number: Vec<usize> = vec![bound; bound];
    let mut count: usize = 0;
    let mut out: Vec<usize> = Vec::new();
    let mut i: usize = 0;
    let ghost taken = |n: usize| n != bound;
    proof {
        math::lemma_tally_none(number@, taken);
    }
    while i < ids.len()
        invariant
            forall|j: int| 0 <= j < ids@.len() ==> #[trigger] ids@[j] < bound,
            bound < usize::MAX,
            i <= ids@.len(),
            number@.len() == bound,
            count == appeared(ids@.take(i as int)).len(),
            taken == (|n: usize| n != bound),
            count == math::tally(number@, taken),
            forall|id: int|
                0 <= id < bound ==> {
                    &&& (#[trigger] number@[id] == bound) == !appeared(ids@.take(i as int)).contains(
                        id as usize,
                    )
                    &&& number@[id] != bound ==> number@[id] < count && appeared(
                        ids@.take(i as int),
                    )[number@[id] as int] == id
                },
            out@.len() == i,
            forall|j: int|
                0 <= j < i ==> (#[trigger] out@[j]) < count && appeared(
                    ids@.take(i as int),
                )[out@[j] as int] == ids@[j],
        decreases ids@.len() - i,
    {
        let id: usize = ids[i];
        let ghost before = appeared(ids@.take(i as int));
        let ghost numbered = number@;
        proof {
            assert(ids@.take(i + 1).drop_last() =~= ids@.take(i as int));
            math::lemma_tally_bound(number@, taken);
            assert(id < bound);
        }
        if number[id] == bound {
            proof {
                math::lemma_tally_update(number@, taken, id as int, count);
            }
            number.set(id, count);
            count += 1;
            assert(appeared(ids@.take(i + 1)) == before.push(id));
        }
        let ghost now = appeared(ids@.take(i + 1));
        proof {
            assert forall|other: int| 0 <= other < bound implies {
                &&& (#[trigger] number@[other] == bound) == !now.contains(other as usize)
                &&& number@[other] != bound ==> number@[other] < count && now[number@[other] as int]
                    == other
            } by {
                let held = numbered[other];
                if before.contains(other as usize) {
                    assert(now[before.index_of(other as usize)] == other);
                }
                if other == id && numbered[other] == bound {
                    assert(now[count - 1] == id);
                } else if now.contains(other as usize) {
                    let k = choose|k: int| 0 <= k < now.len() && now[k] == other;
                    if k < before.len() {
                        assert(before[k] == other);
                    }
                }
            }
        }
        out.push(number[id]);
        i += 1;
    }
    proof {
        assert(ids@.take(ids@.len() as int) =~= ids@);
        math::lemma_tally_bound(number@, taken);
        lemma_appeared(ids@);
        assert forall|j: int| 0 <= j < ids@.len() implies #[trigger] out@[j] == number_in(
            appeared(ids@),
            ids@[j],
        ) by {
            let k = appeared(ids@).index_of(ids@[j]);
            assert(appeared(ids@).contains(ids@[j]));
            assert(appeared(ids@)[k] == ids@[j]);
        }
    }
    (out, count)
}

/// Equal ids get equal numbers and different ids different ones.
pub proof fn lemma_numbers_distinguish<T>(ids: Seq<T>, a: T, b: T)
    requires
        ids.contains(a),
        ids.contains(b),
    ensures
        (number_in(appeared(ids), a) == number_in(appeared(ids), b)) == (a == b),
        0 <= number_in(appeared(ids), a) < appeared(ids).len(),
{
    lemma_appeared(ids);
    let i = choose|i: int| 0 <= i < ids.len() && ids[i] == a;
    let j = choose|j: int| 0 <= j < ids.len() && ids[j] == b;
    assert(appeared(ids).contains(ids[i]));
    assert(appeared(ids).contains(ids[j]));
}

} // verus!
