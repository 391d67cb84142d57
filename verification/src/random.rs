//! What is left to chance.

use crate::addr::SocketAddr;
use crate::substream::SubstreamKey;
use rand::seq::SliceRandom;
use vstd::prelude::*;

verus! {

/// The number of addresses that a random sample keeps.
pub const SAMPLE_SIZE: usize = 1000;

/// Calls `rand::random::<usize>`. Any number may come back.
#[verifier::external_body]
fn random_usize() -> (number: usize) {
    rand::random::<usize>()
}

/// The last of `items` is taken off and put in the place that `pick` names among
/// the first [`SAMPLE_SIZE`].
pub open spec fn overwritten(items: Seq<SocketAddr>, pick: usize) -> Seq<SocketAddr> {
    items.drop_last().update(pick as int % SAMPLE_SIZE as int, items.last())
}

/// What is left of `items` after one [`overwritten`] for each of `picks`.
pub open spec fn sampled(items: Seq<SocketAddr>, picks: Seq<usize>) -> Seq<SocketAddr>
    decreases picks.len(),
{
    if picks.len() == 0 {
        items
    } else {
        overwritten(sampled(items, picks.drop_last()), picks.last())
    }
}

/// How many of `len` items are too many for a sample.
pub open spec fn excess(len: nat) -> nat {
    if len > SAMPLE_SIZE {
        (len - SAMPLE_SIZE) as nat
    } else {
        0
    }
}

/// From which places in a list of `len` items the items come that are left after
/// one [`overwritten`] for each of `picks`.
pub open spec fn drawn(len: nat, picks: Seq<usize>) -> Seq<int>
    decreases picks.len(),
{
    if picks.len() == 0 {
        Seq::new(len, |i: int| i)
    } else {
        let before = drawn(len, picks.drop_last());
        before.drop_last().update(picks.last() as int % SAMPLE_SIZE as int, before.last())
    }
}

/// A sample has no more than [`SAMPLE_SIZE`] items, fewer only where there were
/// fewer to choose from. Its items come from different places in the list to choose
/// from: none is drawn twice.
pub proof fn lemma_sample_is_drawn_from_items(items: Seq<SocketAddr>, picks: Seq<usize>)
    requires
        picks.len() <= excess(items.len()),
    ensures
        sampled(items, picks).len() == items.len() - picks.len(),
        drawn(items.len(), picks).len() == sampled(items, picks).len(),
        drawn(items.len(), picks).no_duplicates(),
        forall|i: int|
            0 <= i < sampled(items, picks).len() ==> {
                &&& 0 <= #[trigger] drawn(items.len(), picks)[i] < items.len()
                &&& sampled(items, picks)[i] == items[drawn(items.len(), picks)[i]]
            },
    decreases picks.len(),
{
    if picks.len() > 0 {
        lemma_sample_is_drawn_from_items(items, picks.drop_last());
        let before = drawn(items.len(), picks.drop_last());
        let after = drawn(items.len(), picks);
        let place = picks.last() as int % SAMPLE_SIZE as int;
        assert(before.last() == before[before.len() - 1]);
        assert forall|i: int| 0 <= i < after.len() implies {
            &&& 0 <= #[trigger] after[i] < items.len()
            &&& sampled(items, picks)[i] == items[after[i]]
        } by {
            if i == place {
                assert(after[i] == before[before.len() - 1]);
            } else {
                assert(after[i] == before[i]);
            }
        }
    }
}

/// Puts the last of `items` in the place that `pick` names.
pub fn overwrite(items: &mut Vec<SocketAddr>, pick: usize)
    requires
        old(items)@.len() > SAMPLE_SIZE,
    ensures
        final(items)@ == overwritten(old(items)@, pick),
{
    if let Some(last_item) = items.pop() {
        let idx: usize = pick % SAMPLE_SIZE;
        items.set(idx, last_item);
    }
}

/// Keeps at most [`SAMPLE_SIZE`] of `items`, chosen at random.
pub fn sample(items: &mut Vec<SocketAddr>)
    ensures
        exists|picks: Seq<usize>|
            picks.len() == excess(old(items)@.len()) && final(items)@ == #[trigger] sampled(
                old(items)@,
                picks,
            ),
{
    let ghost all = items@;
    let ghost mut picks: Seq<usize> = Seq::empty();
    while items.len() > SAMPLE_SIZE
        invariant
            picks.len() <= excess(all.len()),
            items@ == sampled(all, picks),
            items@.len() == all.len() - picks.len(),
        decreases items@.len(),
    {
        let pick: usize = random_usize();
        overwrite(items, pick);
        proof {
            assert(picks.push(pick).drop_last() =~= picks);
            picks = picks.push(pick);
        }
    }
}

/// Calls `SliceRandom::shuffle` of `rand` with the thread's own generator: the
/// same keys, in an order that is left to chance.
#[verifier::external_body]
pub(crate) fn shuffle(keys: &mut Vec<SubstreamKey>)
    ensures
        final(keys)@.to_multiset() == old(keys)@.to_multiset(),
{
    keys.shuffle(&mut rand::thread_rng());
}

} // verus!
