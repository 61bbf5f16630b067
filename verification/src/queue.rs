//! The items of a transfer that have not been handed out.

use fixedbitset::FixedBitSet;
use vstd::prelude::*;

verus! {

/// `fixedbitset::FixedBitSet`, a fixed number of bits.
#[verifier::external_type_specification]
#[verifier::external_body]
pub struct ExFixedBitSet(fixedbitset::FixedBitSet);

/// The bits that a set holds.
pub uninterp spec fn bits_of(set: fixedbitset::FixedBitSet) -> Seq<bool>;

/// `FixedBitSet::with_capacity`: so many bits, none of them set.
#[verifier::external_body]
fn new_set(bits: usize) -> (set: FixedBitSet)
    ensures
        bits_of(set) == Seq::new(bits as nat, |i: int| false),
{
    FixedBitSet::with_capacity(bits)
}

/// `FixedBitSet::set`: one bit is set or cleared, the others stay. It panics where
/// there is no such bit.
#[verifier::external_body]
fn set_bit(set: &mut FixedBitSet, bit: usize, enabled: bool)
    requires
        bit < bits_of(*old(set)).len(),
    ensures
        bits_of(*final(set)) == bits_of(*old(set)).update(bit as int, enabled),
{
    set.set(bit, enabled)
}

/// The positions, from `from` on, of the bits that are not set.
pub open spec fn zeroes_from(bits: Seq<bool>, from: nat) -> Seq<usize>
    decreases bits.len() - from,
{
    if from >= bits.len() {
        Seq::empty()
    } else if bits[from as int] {
        zeroes_from(bits, from + 1)
    } else {
        seq![from as usize] + zeroes_from(bits, from + 1)
    }
}

/// `FixedBitSet::zeroes`: the positions of the bits that are not set, in order.
#[verifier::external_body]
fn zeroes(set: &FixedBitSet) -> (positions: Vec<usize>)
    ensures
        positions@ == zeroes_from(bits_of(*set), 0),
{
    set.zeroes().collect()
}

/// How many items are handed out at once.
pub const BATCH: usize = 10;

/// Which items of a transfer have been handed out.
#[derive(Debug)]
pub struct ItemQueue {
    bits: FixedBitSet,
}

impl View for ItemQueue {
    type V = Seq<bool>;

    closed spec fn view(&self) -> Seq<bool> {
        bits_of(self.bits)
    }
}

/// The items that are handed out next: the first ones that have not been.
pub open spec fn next_batch(taken: Seq<bool>) -> Seq<usize> {
    let open = zeroes_from(taken, 0);
    if open.len() <= BATCH {
        open
    } else {
        open.take(BATCH as int)
    }
}

/// What is handed out once some more items are.
pub open spec fn with_taken(taken: Seq<bool>, batch: Seq<usize>) -> Seq<bool> {
    Seq::new(taken.len(), |i: int| taken[i] || batch.contains(i as usize))
}

pub(crate) proof fn lemma_zeroes(bits: Seq<bool>, from: nat)
    requires
        bits.len() <= usize::MAX,
    ensures
        forall|k: int|
            0 <= k < zeroes_from(bits, from).len() ==> from <= (#[trigger] zeroes_from(bits, from)[k]) < bits.len()
                && !bits[zeroes_from(bits, from)[k] as int],
        forall|i: int| from <= i < bits.len() && !bits[i] ==> zeroes_from(bits, from).contains(i as usize),
        forall|j: int, k: int|
            0 <= j < k < zeroes_from(bits, from).len() ==> (#[trigger] zeroes_from(bits, from)[j]) < (
            #[trigger] zeroes_from(bits, from)[k]),
    decreases bits.len() - from,
{
    if from < bits.len() {
        lemma_zeroes(bits, from + 1);
        let rest = zeroes_from(bits, from + 1);
        let all = zeroes_from(bits, from);
        if !bits[from as int] {
            assert forall|k: int| 0 <= k < all.len() implies from <= (#[trigger] all[k]) < bits.len() && !bits[all[k] as int] by {
                if k > 0 {
                    assert(all[k] == rest[k - 1]);
                }
            }
            assert forall|j: int, k: int| 0 <= j < k < all.len() implies (#[trigger] all[j]) < (#[trigger] all[k]) by {
                assert(all[k] == rest[k - 1]);
                if j > 0 {
                    assert(all[j] == rest[j - 1]);
                }
            }
            assert forall|i: int| from <= i < bits.len() && !bits[i] implies all.contains(i as usize) by {
                if i == from {
                    assert(all[0] == i as usize);
                } else {
                    assert(rest.contains(i as usize));
                    let k = choose|k: int| 0 <= k < rest.len() && rest[k] == i as usize;
                    assert(all[k + 1] == i as usize);
                }
            }
        }
    }
}

impl ItemQueue {
    /// A queue of so many items, none of them handed out.
    pub fn new(items: usize) -> (queue: ItemQueue)
        ensures
            queue@ == Seq::new(items as nat, |i: int| false),
    {
        ItemQueue { bits: new_set(items) }
    }

    /// Hands out the next items, in order.
    pub fn unsent_batch(&mut self) -> (batch: Vec<usize>)
        requires
            old(self)@.len() <= usize::MAX,
        ensures
            batch@ == next_batch(old(self)@),
            final(self)@ == with_taken(old(self)@, batch@),
    {
        let ghost before = self@;
        let mut batch = zeroes(&self.bits);
        batch.truncate(BATCH);
        proof {
            lemma_zeroes(before, 0);
        }
        let mut i: usize = 0;
        assert(self@ =~= with_taken(before, batch@.take(0)));
        while i < batch.len()
            invariant
                i <= batch@.len(),
                before.len() <= usize::MAX,
                forall|k: int| 0 <= k < batch@.len() ==> (#[trigger] batch@[k]) < before.len(),
                self@ == with_taken(before, batch@.take(i as int)),
            decreases batch@.len() - i,
        {
            let ghost now = self@;
            set_bit(&mut self.bits, batch[i], true);
            proof {
                let done = batch@.take(i as int);
                let more = batch@.take(i + 1);
                assert(more =~= done.push(batch@[i as int]));
                assert forall|j: int| 0 <= j < before.len() implies self@[j] == with_taken(before, more)[j] by {
                    if j == batch@[i as int] {
                        assert(more[i as int] == j as usize);
                    } else {
                        assert(now[j] == (before[j] || done.contains(j as usize)));
                        if done.contains(j as usize) {
                            let k = choose|k: int| 0 <= k < done.len() && done[k] == j as usize;
                            assert(more[k] == j as usize);
                        }
                        if more.contains(j as usize) {
                            let k = choose|k: int| 0 <= k < more.len() && more[k] == j as usize;
                            assert(done[k] == j as usize);
                        }
                    }
                }
                assert(self@ =~= with_taken(before, more));
            }
            i = i + 1;
        }
        assert(batch@.take(i as int) =~= batch@);
        batch
    }

    /// Takes an item back, so that it is handed out again.
    pub fn put_back(&mut self, item: usize)
        requires
            item < old(self)@.len(),
        ensures
            final(self)@ == old(self)@.update(item as int, false),
    {
        set_bit(&mut self.bits, item, false);
    }
}

/// What is handed out has not been handed out, is handed out once, and is marked.
/// As long as there is something to hand out, something is.
pub proof fn law_batch(taken: Seq<bool>)
    requires
        taken.len() <= usize::MAX,
    ensures
        forall|k: int|
            0 <= k < next_batch(taken).len() ==> {
                let item = #[trigger] next_batch(taken)[k];
                item < taken.len() && !taken[item as int] && with_taken(taken, next_batch(taken))[item as int]
            },
        next_batch(taken).no_duplicates(),
        next_batch(taken).len() <= BATCH,
        next_batch(taken).len() == 0 <==> forall|i: int| 0 <= i < taken.len() ==> taken[i],
{
    lemma_zeroes(taken, 0);
    let open = zeroes_from(taken, 0);
    let batch = next_batch(taken);
    assert forall|k: int| 0 <= k < batch.len() implies {
        let item = #[trigger] batch[k];
        item < taken.len() && !taken[item as int] && with_taken(taken, batch)[item as int]
    } by {
        assert(batch[k] == open[k]);
        assert(batch.contains(batch[k]));
    }
    assert forall|j: int, k: int| 0 <= j < k < batch.len() implies batch[j] != batch[k] by {
        assert(open[j] < open[k]);
    }
    if batch.len() == 0 {
        assert forall|i: int| 0 <= i < taken.len() implies taken[i] by {
            if !taken[i] {
                assert(open.contains(i as usize));
            }
        }
    } else {
        assert(!taken[batch[0] as int]);
    }
}

/// Ten items are handed out at a time, or all that are left where there are fewer. They
/// are the first of those that have not been handed out, in their order.
pub proof fn law_batch_is_the_first_ten(taken: Seq<bool>)
    requires
        taken.len() <= usize::MAX,
    ensures
        next_batch(taken).len() <= 10,
        next_batch(taken).len() < 10 ==> forall|i: int|
            0 <= i < taken.len() && !#[trigger] taken[i] ==> next_batch(taken).contains(i as usize),
        forall|j: int, k: int|
            0 <= j < k < next_batch(taken).len() ==> (#[trigger] next_batch(taken)[j]) < (
            #[trigger] next_batch(taken)[k]),
        forall|i: int, k: int|
            0 <= k < next_batch(taken).len() && 0 <= i < (#[trigger] next_batch(taken)[k]) && !#[trigger] taken[i]
                ==> next_batch(taken).contains(i as usize),
{
    lemma_zeroes(taken, 0);
    let open = zeroes_from(taken, 0);
    let batch = next_batch(taken);
    assert forall|j: int, k: int| 0 <= j < k < batch.len() implies (#[trigger] batch[j]) < (#[trigger] batch[k]) by {
        assert(open[j] < open[k]);
    }
    assert forall|i: int, k: int|
        0 <= k < batch.len() && 0 <= i < (#[trigger] batch[k]) && !#[trigger] taken[i] implies batch.contains(
        i as usize,
    ) by {
        assert(batch[k] == open[k] && batch[k] < taken.len());
        assert(open.contains(i as usize));
        let at = choose|at: int| 0 <= at < open.len() && open[at] == i as usize;
        if at > k {
            assert(open[k] < open[at]);
        }
        assert(batch[at] == i as usize);
    }
}

/// Handing out items marks them and no others.
pub proof fn law_marks_what_is_handed_out(taken: Seq<bool>, batch: Seq<usize>)
    requires
        taken.len() <= usize::MAX,
    ensures
        with_taken(taken, batch).len() == taken.len(),
        forall|i: int|
            0 <= i < taken.len() ==> #[trigger] with_taken(taken, batch)[i] == (taken[i] || exists|k: int|
                0 <= k < batch.len() && #[trigger] batch[k] == i),
{
    assert forall|i: int| 0 <= i < taken.len() implies #[trigger] with_taken(taken, batch)[i] == (taken[i]
        || exists|k: int| 0 <= k < batch.len() && #[trigger] batch[k] == i) by {
        if batch.contains(i as usize) {
            let k = choose|k: int| 0 <= k < batch.len() && batch[k] == i as usize;
            assert(batch[k] == i);
        }
        if exists|k: int| 0 <= k < batch.len() && #[trigger] batch[k] == i {
            let k = choose|k: int| 0 <= k < batch.len() && #[trigger] batch[k] == i;
            assert(batch[k] == i as usize);
        }
    }
}

} // verus!
