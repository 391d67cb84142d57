//! What holds of one conversation, and of putting addresses forward.

use crate::addr::{raw_of, AddrRaw, KnownAddrs, ManagerCall, SocketAddr};
use crate::message::{all_addresses, anonymous, DiscoveryMessage, MessageView, NodesView};
use crate::random::{drawn, lemma_sample_is_drawn_from_items};
use crate::round::{all_wf, are_shuffles, is_order, offered, spread_out, ANNOUNCE_FANOUT};
use crate::substream::{
    queue_after, Chance, Direction, SendEvent, SubstreamKey, SubstreamState, ANNOUNCE_THRESHOLD,
    MAX_ADDR_TO_SEND, MAX_WAITING_ADDRS,
};
use vstd::prelude::*;

verus! {

// ---------------------------------------------------------------------------
// What a peer is known to have seen.
// ---------------------------------------------------------------------------

/// An address that is inserted is remembered, unless nothing may be.
pub proof fn law_insert_remembers(known: KnownAddrs, addr: AddrRaw)
    requires
        known.wf(),
        known.max_known > 0,
    ensures
        known.insert(addr).addrs.contains(addr),
        known.insert(addr).wf(),
{
    lemma_insert_keeps_wf(known, addr);
    let all = known.others(addr).push(addr);
    assert(all.last() == addr);
    let after = known.insert(addr).addrs;
    assert(after.last() == addr);
    assert(after[after.len() - 1] == addr);
}

pub(crate) proof fn lemma_insert_keeps_wf(known: KnownAddrs, addr: AddrRaw)
    requires
        known.wf(),
    ensures
        known.insert(addr).wf(),
{
    if known.addrs.contains(addr) {
        let i = known.addrs.index_of(addr);
        assert(known.addrs[i] == addr);
        assert(!known.others(addr).contains(addr));
    }
}

/// Whether each of `recent` stands among the last `recent.len()` of `addrs`.
spec fn at_the_end(addrs: Seq<AddrRaw>, recent: Seq<AddrRaw>) -> bool {
    forall|j: int|
        0 <= j < recent.len() ==> exists|i: int|
            addrs.len() - recent.len() <= i && 0 <= i < addrs.len() && addrs[i]
                == #[trigger] recent[j]
}

/// As many of the latest addresses as may be remembered are remembered.
pub proof fn law_recent_addresses_are_known(known: KnownAddrs, more: Seq<AddrRaw>)
    requires
        known.wf(),
        more.len() <= known.max_known,
    ensures
        known.insert_all(more).wf(),
        known.insert_all(more).max_known == known.max_known,
        forall|j: int|
            0 <= j < more.len() ==> known.insert_all(more).addrs.contains(#[trigger] more[j]),
{
    lemma_recent_addresses_at_the_end(known, more);
    let addrs = known.insert_all(more).addrs;
    assert forall|j: int| 0 <= j < more.len() implies addrs.contains(#[trigger] more[j]) by {
        let i = choose|i: int|
            addrs.len() - more.len() <= i && 0 <= i < addrs.len() && addrs[i] == more[j];
        assert(addrs[i] == more[j]);
    }
}

proof fn lemma_recent_addresses_at_the_end(known: KnownAddrs, more: Seq<AddrRaw>)
    requires
        known.wf(),
        more.len() <= known.max_known,
    ensures
        known.insert_all(more).wf(),
        known.insert_all(more).max_known == known.max_known,
        at_the_end(known.insert_all(more).addrs, more),
    decreases more.len(),
{
    if more.len() > 0 {
        let recent = more.drop_last();
        let addr = more.last();
        lemma_recent_addresses_at_the_end(known, recent);
        let before = known.insert_all(recent);
        let others = before.others(addr);
        let after = before.insert(addr).addrs;
        lemma_insert_keeps_wf(before, addr);
        let gap = others.push(addr).len() - after.len();
        assert forall|j: int| 0 <= j < more.len() implies exists|i: int|
            after.len() - more.len() <= i && 0 <= i < after.len() && after[i]
                == #[trigger] more[j] by {
            if more[j] == addr {
                assert(after[after.len() - 1] == addr);
            } else {
                assert(more[j] == recent[j]);
                let i = choose|i: int|
                    before.addrs.len() - recent.len() <= i && 0 <= i < before.addrs.len()
                        && before.addrs[i] == recent[j];
                let k = if before.addrs.contains(addr) && before.addrs.index_of(addr) < i {
                    i - 1
                } else {
                    i
                };
                assert(others[k] == more[j]);
                assert(after[k - gap] == more[j]);
            }
        }
    }
}

/// An address is told to a peer only if the peer is not known to have seen it.
pub proof fn law_news_is_news(state: SubstreamState)
    ensures
        forall|i: int|
            0 <= i < state.news().len() ==> !state.addr_known.addrs.contains(
                #[trigger] state.news()[i],
            ),
        state.news().len() <= state.announce_addrs.len(),
{
    let raws = state.announce_addrs.map_values(|addr: SocketAddr| raw_of(addr));
    let unseen = |raw: AddrRaw| !state.addr_known.addrs.contains(raw);
    lemma_filter(raws, unseen);
    assert forall|i: int| 0 <= i < state.news().len() implies !state.addr_known.addrs.contains(
        #[trigger] state.news()[i],
    ) by {
        assert(unseen(raws.filter(unseen)[i]));
    }
}

proof fn lemma_filter(raws: Seq<AddrRaw>, keep: spec_fn(AddrRaw) -> bool)
    ensures
        raws.filter(keep).len() <= raws.len(),
        forall|i: int| 0 <= i < raws.filter(keep).len() ==> keep(#[trigger] raws.filter(keep)[i]),
        forall|i: int|
            0 <= i < raws.filter(keep).len() ==> raws.contains(#[trigger] raws.filter(keep)[i]),
        forall|i: int|
            0 <= i < raws.len() && keep(#[trigger] raws[i]) ==> raws.filter(keep).contains(raws[i]),
    decreases raws.len(),
{
    reveal(Seq::filter);
    if raws.len() > 0 {
        let shorter = raws.drop_last();
        lemma_filter(shorter, keep);
        let kept = raws.filter(keep);
        assert forall|i: int| 0 <= i < kept.len() implies raws.contains(#[trigger] kept[i]) by {
            if i < shorter.filter(keep).len() {
                assert(shorter.contains(shorter.filter(keep)[i]));
                let j = choose|j: int| 0 <= j < shorter.len() && shorter[j] == kept[i];
                assert(raws[j] == kept[i]);
            } else {
                assert(raws[raws.len() - 1] == kept[i]);
            }
        }
        assert forall|i: int| 0 <= i < raws.len() && keep(#[trigger] raws[i]) implies kept.contains(
            raws[i],
        ) by {
            if i < shorter.len() {
                assert(shorter[i] == raws[i]);
                let j = choose|j: int|
                    0 <= j < shorter.filter(keep).len() && shorter.filter(keep)[j] == raws[i];
                assert(kept[j] == raws[i]);
            } else {
                assert(kept[kept.len() - 1] == raws[i]);
            }
        }
    }
}

/// Every waiting address is told to the peer or known to have been seen by it.
pub proof fn law_all_news_is_told(state: SubstreamState)
    ensures
        forall|i: int|
            0 <= i < state.announce_addrs.len() ==> state.news().contains(
                raw_of(#[trigger] state.announce_addrs[i]),
            ) || state.addr_known.addrs.contains(raw_of(state.announce_addrs[i])),
{
    let raws = state.announce_addrs.map_values(|addr: SocketAddr| raw_of(addr));
    let unseen = |raw: AddrRaw| !state.addr_known.addrs.contains(raw);
    lemma_filter(raws, unseen);
    assert forall|i: int| 0 <= i < state.announce_addrs.len() implies state.news().contains(
        raw_of(#[trigger] state.announce_addrs[i]),
    ) || state.addr_known.addrs.contains(raw_of(state.announce_addrs[i])) by {
        assert(raws[i] == raw_of(state.announce_addrs[i]));
    }
}

/// What a peer has just told is not told back to it, as long as it did not tell
/// more than is remembered.
pub proof fn law_not_told_back(state: SubstreamState, nodes: NodesView)
    requires
        state.wf(),
        all_addresses(nodes.items).len() <= state.addr_known.max_known,
    ensures
        forall|i: int|
            0 <= i < state.learned(nodes).news().len() ==> !all_addresses(nodes.items).contains(
                #[trigger] state.learned(nodes).news()[i],
            ),
{
    let told = all_addresses(nodes.items);
    let after = state.learned(nodes);
    law_recent_addresses_are_known(state.addr_known, told);
    law_news_is_news(after);
}

// ---------------------------------------------------------------------------
// Questions and answers.
// ---------------------------------------------------------------------------

/// A message that breaks a rule is reported, once, and has no other effect.
pub proof fn law_fault_is_only_reported(
    state: SubstreamState,
    message: MessageView,
    chance: Chance,
)
    requires
        state.fault(message) is Some,
    ensures
        state.absorbed(message, chance) == state,
        !state.accepts(message),
        state.calls(message, chance) == seq![
            ManagerCall::Misbehave { addr: state.remote_addr, kind: state.fault(message)->0 },
        ],
{
}

/// Whoever opens a substream asks a question first, which the other side, on
/// which the substream was opened, answers.
pub proof fn law_first_question_is_answered(max_known: nat, here: SocketAddr, there: SocketAddr)
    ensures
        SubstreamState::fresh(Direction::Outbound, max_known, there).pending_messages.len() == 1,
        SubstreamState::fresh(Direction::Inbound, max_known, here).pending_messages.len() == 0,
        SubstreamState::fresh(Direction::Inbound, max_known, here).answers(
            SubstreamState::fresh(Direction::Outbound, max_known, there).pending_messages[0],
        ),
{
}

/// An answer consists of nodes of unknown identity, each at an address that the
/// address manager came up with: of all these addresses, or, where they are too
/// many, of as many as may be sent. None of the addresses that it came up with is
/// drawn twice.
pub proof fn law_answer_is_drawn_from_manager(chance: Chance)
    requires
        chance.valid(),
    ensures
        !chance.answer().announce,
        chance.answer().items.len() == if chance.addrs.len() > MAX_ADDR_TO_SEND {
            MAX_ADDR_TO_SEND as nat
        } else {
            chance.addrs.len()
        },
        ({
            let places = drawn(chance.addrs.len(), chance.picks);
            &&& places.len() == chance.answer().items.len()
            &&& places.no_duplicates()
            &&& forall|i: int|
                0 <= i < places.len() ==> {
                    &&& 0 <= #[trigger] places[i] < chance.addrs.len()
                    &&& chance.answer().items[i] == anonymous(raw_of(chance.addrs[places[i]]))
                }
        }),
{
    lemma_sample_is_drawn_from_items(chance.addrs, chance.picks);
}

/// A peer that follows the same rules accepts the answer to its question.
pub proof fn law_answer_is_accepted(peer: SubstreamState, chance: Chance)
    requires
        chance.valid(),
        !peer.received_nodes,
    ensures
        peer.accepts(MessageView::Nodes(chance.answer())),
{
    law_answer_is_drawn_from_manager(chance);
}

/// Whether one of `messages` is a question.
pub open spec fn holds_question(messages: Seq<MessageView>) -> bool {
    exists|i: int| 0 <= i < messages.len() && #[trigger] messages[i] is GetNodes
}

/// However many messages a peer sends, its question is answered at most once: by
/// the first one that asks, unless one had asked before.
pub proof fn law_at_most_one_answer(
    state: SubstreamState,
    messages: Seq<MessageView>,
    chance: Chance,
)
    ensures
        ({
            let asks = !state.received_get_nodes && holds_question(messages);
            let after = state.absorbed_all(messages, chance);
            &&& after.pending_messages == if asks {
                state.pending_messages.push(MessageView::Nodes(chance.answer()))
            } else {
                state.pending_messages
            }
            &&& after.received_get_nodes == (state.received_get_nodes || asks)
        }),
    decreases messages.len(),
{
    if messages.len() > 0 {
        let shorter = messages.drop_last();
        law_at_most_one_answer(state, shorter, chance);
        assert(messages.last() == messages[messages.len() - 1]);
        if !state.received_get_nodes {
            if exists|i: int| 0 <= i < shorter.len() && #[trigger] shorter[i] is GetNodes {
                let i = choose|i: int| 0 <= i < shorter.len() && #[trigger] shorter[i] is GetNodes;
                assert(messages[i] is GetNodes);
            } else if exists|i: int| 0 <= i < messages.len() && #[trigger] messages[i] is GetNodes {
                let i = choose|i: int|
                    0 <= i < messages.len() && #[trigger] messages[i] is GetNodes;
                if i < shorter.len() {
                    assert(shorter[i] is GetNodes);
                }
            }
        }
    }
}

/// The lists in `lists` that are no announcements.
pub open spec fn answers_in(lists: Seq<NodesView>) -> Seq<NodesView> {
    lists.filter(|nodes: NodesView| !nodes.announce)
}

/// However many messages a peer sends, at most one list is passed on that is no
/// announcement, and none if one had been before. No list that is passed on is
/// longer than the rules allow.
pub proof fn law_lists_passed_on_keep_the_rules(
    state: SubstreamState,
    messages: Seq<MessageView>,
    chance: Chance,
)
    ensures
        forall|i: int|
            0 <= i < state.passed_on(messages, chance).len() ==> {
                let nodes = #[trigger] state.passed_on(messages, chance)[i];
                nodes.items.len() <= if nodes.announce {
                    ANNOUNCE_THRESHOLD
                } else {
                    MAX_ADDR_TO_SEND
                }
            },
        answers_in(state.passed_on(messages, chance)).len() <= 1,
        state.received_nodes ==> answers_in(state.passed_on(messages, chance)).len() == 0,
        state.absorbed_all(messages, chance).received_nodes == (state.received_nodes || answers_in(
            state.passed_on(messages, chance),
        ).len() > 0),
    decreases messages.len(),
{
    reveal(Seq::filter);
    if messages.len() > 0 {
        let shorter = messages.drop_last();
        law_lists_passed_on_keep_the_rules(state, shorter, chance);
        let earlier = state.passed_on(shorter, chance);
        let before = state.absorbed_all(shorter, chance);
        if before.accepts(messages.last()) {
            assert(state.passed_on(messages, chance).drop_last() =~= earlier);
        }
    }
}

/// Which lists are passed on does not depend on what the address manager came up
/// with.
pub proof fn law_passing_on_is_not_left_to_chance(
    state: SubstreamState,
    messages: Seq<MessageView>,
    a: Chance,
    b: Chance,
)
    ensures
        state.passed_on(messages, a) == state.passed_on(messages, b),
        state.absorbed_all(messages, a).received_get_nodes == state.absorbed_all(
            messages,
            b,
        ).received_get_nodes,
        state.absorbed_all(messages, a).received_nodes == state.absorbed_all(
            messages,
            b,
        ).received_nodes,
        state.absorbed_all(messages, a).addr_known == state.absorbed_all(messages, b).addr_known,
    decreases messages.len(),
{
    if messages.len() > 0 {
        law_passing_on_is_not_left_to_chance(state, messages.drop_last(), a, b);
    }
}

proof fn lemma_chance_matters_for_question_only(
    state: SubstreamState,
    messages: Seq<MessageView>,
    a: Chance,
    b: Chance,
)
    requires
        state.received_get_nodes || !holds_question(messages),
    ensures
        state.absorbed_all(messages, a) == state.absorbed_all(messages, b),
        state.passed_on(messages, a) == state.passed_on(messages, b),
        state.calls_all(messages, a) == state.calls_all(messages, b),
    decreases messages.len(),
{
    if messages.len() > 0 {
        let shorter = messages.drop_last();
        assert(messages.last() == messages[messages.len() - 1]);
        assert(holds_question(shorter) ==> holds_question(messages)) by {
            if holds_question(shorter) {
                let i = choose|i: int| 0 <= i < shorter.len() && #[trigger] shorter[i] is GetNodes;
                assert(messages[i] is GetNodes);
            }
        }
        lemma_chance_matters_for_question_only(state, shorter, a, b);
        law_at_most_one_answer(state, shorter, a);
    }
}

proof fn lemma_receiving_in_two_goes(
    state: SubstreamState,
    first: Seq<MessageView>,
    second: Seq<MessageView>,
    chance: Chance,
)
    ensures
        state.absorbed_all(first, chance).absorbed_all(second, chance) == state.absorbed_all(
            first + second,
            chance,
        ),
        state.passed_on(first, chance) + state.absorbed_all(first, chance).passed_on(
            second,
            chance,
        ) == state.passed_on(first + second, chance),
        state.calls_all(first, chance) + state.absorbed_all(first, chance).calls_all(
            second,
            chance,
        ) == state.calls_all(first + second, chance),
    decreases second.len(),
{
    if second.len() == 0 {
        assert(first + second =~= first);
        assert(state.passed_on(first, chance) + Seq::empty() =~= state.passed_on(first, chance));
        assert(state.calls_all(first, chance) + Seq::empty() =~= state.calls_all(first, chance));
    } else {
        lemma_receiving_in_two_goes(state, first, second.drop_last(), chance);
        assert((first + second).drop_last() =~= first + second.drop_last());
        assert((first + second).last() == second.last());
        let mid = state.absorbed_all(first, chance);
        assert(state.passed_on(first, chance) + mid.passed_on(second, chance) =~= state.passed_on(
            first + second,
            chance,
        ));
        assert(state.calls_all(first, chance) + mid.calls_all(second, chance) =~= state.calls_all(
            first + second,
            chance,
        ));
    }
}

/// How much arrives at a time does not matter: messages received in two goes
/// leave the substream as if they had been received in one, with the same lists
/// passed on and the same calls made to the address manager. What is left to chance
/// in the go that brings the first question decides.
pub proof fn law_receiving_in_two_goes(
    state: SubstreamState,
    first: Seq<MessageView>,
    second: Seq<MessageView>,
    a: Chance,
    b: Chance,
)
    ensures
        ({
            let mid = state.absorbed_all(first, a);
            let chance = if state.received_get_nodes || holds_question(first) {
                a
            } else {
                b
            };
            &&& mid.absorbed_all(second, b) == state.absorbed_all(first + second, chance)
            &&& state.passed_on(first, a) + mid.passed_on(second, b) == state.passed_on(
                first + second,
                chance,
            )
            &&& state.calls_all(first, a) + mid.calls_all(second, b) == state.calls_all(
                first + second,
                chance,
            )
        }),
{
    let mid = state.absorbed_all(first, a);
    if state.received_get_nodes || holds_question(first) {
        law_at_most_one_answer(state, first, a);
        lemma_chance_matters_for_question_only(mid, second, a, b);
        lemma_receiving_in_two_goes(state, first, second, a);
    } else {
        lemma_chance_matters_for_question_only(state, first, a, b);
        lemma_receiving_in_two_goes(state, first, second, b);
    }
}

// ---------------------------------------------------------------------------
// Sending.
// ---------------------------------------------------------------------------

/// The waiting messages after the stream took `taken` of them, one after the
/// other, and was given the next one if there is a next one.
pub open spec fn queue_after_taking(queue: Seq<MessageView>, taken: nat) -> Seq<MessageView>
    decreases taken,
{
    if taken == 0 {
        queue_after(queue, SendEvent::Start)
    } else {
        queue_after(queue_after_taking(queue, (taken - 1) as nat), SendEvent::Accepted)
    }
}

/// When the stream has taken some messages and refuses the next, exactly those
/// that it took are gone: the others wait as before, the refused one first.
pub proof fn law_refused_message_waits(
    queue: Seq<MessageView>,
    taken: nat,
    refused: DiscoveryMessage,
)
    requires
        taken < queue.len(),
        refused@ == queue[taken as int],
    ensures
        queue_after(queue_after_taking(queue, taken), SendEvent::Refused(refused)) == queue.skip(
            taken as int,
        ),
{
    lemma_queue_after_taking(queue, taken);
    assert(seq![refused@] + queue.skip(taken as int + 1) =~= queue.skip(taken as int));
}

proof fn lemma_queue_after_taking(queue: Seq<MessageView>, taken: nat)
    requires
        taken < queue.len(),
    ensures
        queue_after_taking(queue, taken) == queue.skip(taken as int + 1),
    decreases taken,
{
    if taken > 0 {
        lemma_queue_after_taking(queue, (taken - 1) as nat);
        assert(queue.skip(taken as int).drop_first() =~= queue.skip(taken as int + 1));
    } else {
        assert(queue.drop_first() =~= queue.skip(1));
    }
}

/// When the stream takes every message, none is left.
pub proof fn law_all_messages_are_sent(queue: Seq<MessageView>)
    ensures
        queue_after_taking(queue, queue.len()).len() == 0,
{
    if queue.len() > 0 {
        lemma_queue_after_taking(queue, (queue.len() - 1) as nat);
    }
}

// ---------------------------------------------------------------------------
// Announcements.
// ---------------------------------------------------------------------------

/// An address is put forward to the first two substreams in the order that was
/// drawn, or to the only one; nothing else changes.
pub proof fn law_address_goes_to_two(
    open: Map<SubstreamKey, SubstreamState>,
    addr: SocketAddr,
    order: Seq<SubstreamKey>,
)
    requires
        is_order(order, open.dom()),
    ensures
        ({
            let after = offered(open, addr, order, ANNOUNCE_FANOUT as nat);
            &&& after.dom() == open.dom()
            &&& forall|i: int|
                0 <= i < order.len() ==> #[trigger] after[order[i]] == if i < ANNOUNCE_FANOUT {
                    open[order[i]].offered(addr)
                } else {
                    open[order[i]]
                }
        }),
{
    reveal_with_fuel(offered, 3);
    let after = offered(open, addr, order, ANNOUNCE_FANOUT as nat);
    assert forall|i: int| 0 <= i < order.len() implies open.contains_key(#[trigger] order[i]) by {
        assert(order.to_set().contains(order[i]));
    }
    assert(after.dom() =~= open.dom());
}

/// Putting addresses forward opens and closes no substream, and takes nothing
/// back.
pub proof fn law_spreading_only_adds(
    open: Map<SubstreamKey, SubstreamState>,
    addrs: Seq<SocketAddr>,
    shuffles: Seq<Seq<SubstreamKey>>,
)
    requires
        are_shuffles(shuffles, addrs.len(), open.dom()),
        all_wf(open),
    ensures
        spread_out(open, addrs, shuffles).dom() == open.dom(),
        all_wf(spread_out(open, addrs, shuffles)),
        forall|key: SubstreamKey| #[trigger]
            open.contains_key(key) ==> {
                let before = open[key];
                let after = spread_out(open, addrs, shuffles)[key];
                &&& after == SubstreamState { announce_addrs: after.announce_addrs, ..before }
                &&& before.announce_addrs.is_prefix_of(after.announce_addrs)
                &&& after.announce_addrs.len() <= before.announce_addrs.len() + addrs.len()
            },
    decreases addrs.len(),
{
    if addrs.len() > 0 {
        assert(are_shuffles(shuffles.drop_last(), addrs.drop_last().len(), open.dom())) by {
            assert forall|i: int| 0 <= i < shuffles.drop_last().len() implies is_order(
                #[trigger] shuffles.drop_last()[i],
                open.dom(),
            ) by {
                assert(is_order(shuffles[i], open.dom()));
            }
        }
        law_spreading_only_adds(open, addrs.drop_last(), shuffles.drop_last());
        let mid = spread_out(open, addrs.drop_last(), shuffles.drop_last());
        let order = shuffles.last();
        assert(is_order(shuffles[shuffles.len() - 1], open.dom()));
        law_address_goes_to_two(mid, addrs.last(), order);
        assert forall|key: SubstreamKey| #[trigger] open.contains_key(key) implies order.contains(
            key,
        ) by {
            assert(order.to_set().contains(key));
        }
        let after = spread_out(open, addrs, shuffles);
        assert forall|key: SubstreamKey| #[trigger] open.contains_key(key) implies {
            &&& after[key] == mid[key] || after[key] == mid[key].offered(addrs.last())
        } by {
            let i = choose|i: int| 0 <= i < order.len() && order[i] == key;
            assert(after[order[i]] == after[key]);
        }
        assert forall|key: SubstreamKey| #[trigger]
            after.contains_key(key) implies after[key].wf() by {
            assert(open.contains_key(key));
        }
    }
}

/// What a substream tells its peer at a time is an announcement of at most
/// [`MAX_WAITING_ADDRS`] nodes of unknown identity.
pub proof fn law_telling_is_brief(state: SubstreamState)
    requires
        state.wf(),
        state.announce_addrs.len() > 0,
    ensures
        state.told().pending_messages == state.pending_messages.push(
            MessageView::Nodes(NodesView::announcement(state.news())),
        ),
        state.told().announce_addrs.len() == 0,
        state.news().len() <= MAX_WAITING_ADDRS,
{
    law_news_is_news(state);
}

/// A peer that follows the same rules accepts whatever is announced to it.
pub proof fn law_announcement_is_accepted(peer: SubstreamState, state: SubstreamState)
    requires
        state.wf(),
        state.announce_addrs.len() > 0,
    ensures
        peer.accepts(state.told().pending_messages.last()),
{
    law_telling_is_brief(state);
}

} // verus!
