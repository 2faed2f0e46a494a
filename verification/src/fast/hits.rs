//! What the fast scan owes: a match is taken in full, and one at the last distance is not
//! passed over.
use vstd::prelude::*;

use crate::fast::q0;
use crate::fast::q0::Fragment;
use crate::greedy::search;

verus! {

impl<'a> Fragment<'a> {
    /// A match is taken in full: from five agreeing bytes on, as far as the bytes agree or
    /// the block goes.
    pub proof fn lemma_length_is_longest(&self, at: int, candidate: int, end: int)
        requires
            0 <= candidate < at,
            at + 5 <= end <= self.data@.len(),
            forall|k: int| 0 <= k < 5 ==> #[trigger] self.data@[at + k] == self.data@[candidate + k],
        ensures
            ({
                let len = self.length(at, candidate, end);
                &&& 5 <= len <= end - at
                &&& forall|k: int|
                    0 <= k < len ==> #[trigger] self.data@[at + k] == self.data@[candidate + k]
                &&& at + len < end ==> self.data@[at + len] != self.data@[candidate + len]
            }),
    {
        let left = candidate + 5;
        let right = at + 5;
        let limit = end - at - 5;
        search::lemma_agreement_is_longest(self.data@, left, right, limit);
        let len = self.length(at, candidate, end);
        let before = self.data@.skip(left);
        let here = self.data@.skip(right);
        assert forall|k: int| 0 <= k < len implies #[trigger] self.data@[at + k] == self.data@[
        candidate + k] by {
            if k >= 5 {
                assert(before[k - 5] == here[k - 5]);
            }
        }
        if at + len < end {
            assert(before[len - 5] != here[len - 5]);
        }
    }

    /// A position holds a match at the last distance inside the window.
    pub open spec fn repeats_last(&self, at: int, last: int) -> bool {
        0 < last <= at && last <= 0x3FFF0 && q0::five_match(self.data@, at, at - last)
    }

    /// No match at the last distance is passed over in the next thirty-two positions, and
    /// where the first of them has one, that is what is found.
    pub proof fn lemma_last_distance_is_seen(
        &self,
        table: Seq<i32>,
        at: int,
        limit: int,
        last: int,
        p: int,
    )
        requires
            at <= p < at + 32,
            p < limit,
            self.repeats_last(p, last),
        ensures
            self.hit(table, at, 32, limit, last).0 matches Some((ip, candidate)) && at <= ip <= p
                && (ip == p ==> candidate == p - last),
    {
        self.lemma_seen(table, at, 32, limit, last, p);
    }

    /// The steps grow by one every thirty-two positions looked at.
    proof fn lemma_seen(
        &self,
        table: Seq<i32>,
        at: int,
        skip: int,
        limit: int,
        last: int,
        p: int,
    )
        requires
            32 <= skip,
            at <= p < at + 64 - skip,
            p < limit,
            self.repeats_last(p, last),
        ensures
            self.hit(table, at, skip, limit, last).0 matches Some((ip, candidate)) && at <= ip <= p
                && (ip == p ==> candidate == p - last),
        decreases p - at,
    {
        if at < p {
            self.lemma_seen(
                table.update(self.slot(at), at as i32),
                at + 1,
                skip + 1,
                limit,
                last,
                p,
            );
        }
    }
}

} // verus!
