//! What holds between two peers that keep to the rules.

use crate::addr::SocketAddr;
use crate::codec::{lemma_len_of_anonymous_list, wire_len, wire_of};
use crate::frame::MAX_FRAME_LEN;
use crate::laws::{
    law_address_goes_to_two, law_answer_is_drawn_from_manager, law_at_most_one_answer,
    law_telling_is_brief,
};
use crate::message::{messages_view, MessageView, NodesView};
use crate::round::{
    are_shuffles, is_order, send_ends, send_fails, spread_out, DiscoveryState, Orders,
    PollAction, PollEvent, ReceiverPoll, Stage, ANNOUNCE_FANOUT,
};
use crate::round_laws::{
    current, is_run, lemma_going_on_polling, lemma_receiving_keeps_wf, lemma_spread_keeps_dom,
    places, state_after, taken_up, Turn,
};
use crate::substream::{
    lemma_receiving_leaves_the_rest, Chance, Direction, SendEvent, StreamEnd, SubstreamKey,
    SubstreamState, TimerPoll, ANNOUNCE_THRESHOLD, MAX_ADDR_TO_SEND,
};
use vstd::prelude::*;

verus! {

// ---------------------------------------------------------------------------
// Two peers that keep to the rules.
// ---------------------------------------------------------------------------

/// What can happen to a substream.
pub enum Deed {
    Timed(TimerPoll),
    Announced,
    Received { messages: Seq<MessageView>, end: StreamEnd, chance: Chance },
    Offered(SocketAddr),
    Told,
    Sending(SendEvent),
}

/// A substream after something has happened to it.
pub open spec fn after_deed(state: SubstreamState, deed: Deed) -> SubstreamState {
    match deed {
        Deed::Timed(polled) => state.timed(polled),
        Deed::Announced => state.announced(),
        Deed::Received { messages, end, chance } => state.received(messages, end, chance),
        Deed::Offered(addr) => state.offered(addr),
        Deed::Told => state.told(),
        Deed::Sending(event) => state.sending(event),
    }
}

/// A substream after some things have happened to it.
pub open spec fn after_deeds(state: SubstreamState, deeds: Seq<Deed>) -> SubstreamState
    decreases deeds.len(),
{
    if deeds.len() == 0 {
        state
    } else {
        after_deed(after_deeds(state, deeds.drop_last()), deeds.last())
    }
}

/// The messages that join the queue when something happens to a substream.
pub open spec fn joining(state: SubstreamState, deed: Deed) -> Seq<MessageView> {
    match deed {
        Deed::Received { .. } | Deed::Told => after_deed(state, deed).pending_messages.skip(
            state.pending_messages.len() as int,
        ),
        _ => Seq::empty(),
    }
}

/// The messages that a substream has for its peer: those that wait at first, and
/// those that join the queue later.
pub open spec fn messages_for_peer(state: SubstreamState, deeds: Seq<Deed>) -> Seq<MessageView>
    decreases deeds.len(),
{
    if deeds.len() == 0 {
        state.pending_messages
    } else {
        messages_for_peer(state, deeds.drop_last()) + joining(
            after_deeds(state, deeds.drop_last()),
            deeds.last(),
        )
    }
}

/// The messages that the stream was given and did not give back.
pub open spec fn given_to_stream(state: SubstreamState, deeds: Seq<Deed>) -> Seq<MessageView>
    decreases deeds.len(),
{
    if deeds.len() == 0 {
        Seq::empty()
    } else {
        let before = given_to_stream(state, deeds.drop_last());
        let queue = after_deeds(state, deeds.drop_last()).pending_messages;
        match deeds.last() {
            Deed::Sending(SendEvent::Start) | Deed::Sending(SendEvent::Accepted) => {
                if queue.len() > 0 {
                    before.push(queue.first())
                } else {
                    before
                }
            },
            Deed::Sending(SendEvent::Refused(_)) => before.drop_last(),
            _ => before,
        }
    }
}

/// Whether the stream gives back no message but the one that it was given last.
pub open spec fn refusals_are_true(state: SubstreamState, deeds: Seq<Deed>) -> bool
    decreases deeds.len(),
{
    deeds.len() > 0 ==> {
        &&& refusals_are_true(state, deeds.drop_last())
        &&& deeds.last() matches Deed::Sending(SendEvent::Refused(message)) ==> {
            let before = given_to_stream(state, deeds.drop_last());
            before.len() > 0 && before.last() == message@
        }
    }
}

/// No message is lost, repeated or overtaken on its way to the stream: what the
/// stream was given, followed by what waits, is all that there is for the peer.
pub proof fn law_messages_are_sent_in_order(state: SubstreamState, deeds: Seq<Deed>)
    requires
        refusals_are_true(state, deeds),
    ensures
        given_to_stream(state, deeds) + after_deeds(state, deeds).pending_messages
            == messages_for_peer(state, deeds),
    decreases deeds.len(),
{
    if deeds.len() > 0 {
        let earlier = deeds.drop_last();
        let before = after_deeds(state, earlier);
        let after = after_deeds(state, deeds);
        law_messages_are_sent_in_order(state, earlier);
        if let Deed::Received { messages, end, chance } = deeds.last() {
            law_at_most_one_answer(before, messages, chance);
        }
        assert(before.pending_messages + joining(before, deeds.last()) =~= match deeds.last() {
            Deed::Received { .. } | Deed::Told => after.pending_messages,
            _ => before.pending_messages,
        });
    }
    assert(given_to_stream(state, deeds) + after_deeds(state, deeds).pending_messages
        =~= messages_for_peer(state, deeds));
}

/// Whether there is one random number for each address too many, wherever a
/// question may be answered.
pub open spec fn chances_are_valid(deeds: Seq<Deed>) -> bool {
    forall|i: int|
        0 <= i < deeds.len() ==> (#[trigger] deeds[i] matches Deed::Received { chance, .. }
            ==> chance.valid())
}

/// Whether `peer` finds no fault in any of `messages` when they arrive one after
/// the other.
pub open spec fn finds_no_fault(
    peer: SubstreamState,
    messages: Seq<MessageView>,
    chance: Chance,
) -> bool
    decreases messages.len(),
{
    messages.len() > 0 ==> {
        &&& finds_no_fault(peer, messages.drop_last(), chance)
        &&& peer.absorbed_all(messages.drop_last(), chance).fault(messages.last()) is None
    }
}

/// Whether all nodes in a list are of unknown identity and have one address each.
spec fn is_anonymous(nodes: NodesView) -> bool {
    forall|i: int|
        0 <= i < nodes.items.len() ==> {
            &&& (#[trigger] nodes.items[i]).node_id is None
            &&& nodes.items[i].addresses.len() == 1
        }
}

proof fn lemma_one_message_joins(state: SubstreamState, deed: Deed)
    requires
        state.wf(),
        deed matches Deed::Received { chance, .. } ==> chance.valid(),
    ensures
        joining(state, deed).len() > 0 ==> is_anonymous(joining(state, deed)[0]->Nodes_0),
        after_deed(state, deed).wf(),
        state.received_get_nodes ==> after_deed(state, deed).received_get_nodes,
        ({
            let more = joining(state, deed);
            ||| more.len() == 0
            ||| {
                &&& more.len() == 1
                &&& more[0] is Nodes
                &&& more[0]->Nodes_0.announce
                &&& more[0]->Nodes_0.items.len() <= ANNOUNCE_THRESHOLD
            }
            ||| {
                &&& more.len() == 1
                &&& more[0] is Nodes
                &&& !more[0]->Nodes_0.announce
                &&& more[0]->Nodes_0.items.len() <= MAX_ADDR_TO_SEND
                &&& !state.received_get_nodes
                &&& after_deed(state, deed).received_get_nodes
            }
        }),
{
    match deed {
        Deed::Received { messages, end, chance } => {
            lemma_receiving_keeps_wf(state, messages, chance);
            lemma_receiving_leaves_the_rest(state, messages, chance);
            law_at_most_one_answer(state, messages, chance);
            law_answer_is_drawn_from_manager(chance);
        },
        Deed::Told => {
            if state.announce_addrs.len() > 0 {
                law_telling_is_brief(state);
            }
        },
        _ => {},
    }
}

proof fn lemma_no_fault_so_far(
    state: SubstreamState,
    deeds: Seq<Deed>,
    peer: SubstreamState,
    chance: Chance,
)
    requires
        state.wf(),
        !state.received_get_nodes,
        state.pending_messages.len() <= 1,
        state.pending_messages.len() == 1 ==> state.pending_messages[0] is GetNodes,
        chances_are_valid(deeds),
        !peer.received_get_nodes,
        !peer.received_nodes,
    ensures
        finds_no_fault(peer, messages_for_peer(state, deeds), chance),
        after_deeds(state, deeds).wf(),
        peer.absorbed_all(messages_for_peer(state, deeds), chance).received_nodes ==> after_deeds(
            state,
            deeds,
        ).received_get_nodes,
    decreases deeds.len(),
{
    if deeds.len() == 0 {
        reveal_with_fuel(finds_no_fault, 2);
        reveal_with_fuel(SubstreamState::absorbed_all, 2);
        if state.pending_messages.len() == 1 {
            assert(state.pending_messages.drop_last() =~= Seq::empty());
        }
    } else {
        let earlier = deeds.drop_last();
        let deed = deeds.last();
        assert(deeds[deeds.len() - 1] == deed);
        assert forall|i: int| 0 <= i < earlier.len() implies (
        #[trigger] earlier[i] matches Deed::Received { chance, .. } ==> chance.valid()) by {
            assert(earlier[i] == deeds[i]);
        }
        lemma_no_fault_so_far(state, earlier, peer, chance);
        let mid = after_deeds(state, earlier);
        let said = messages_for_peer(state, earlier);
        let more = joining(mid, deed);
        lemma_one_message_joins(mid, deed);
        if more.len() == 0 {
            assert(said + more =~= said);
        } else {
            assert((said + more).drop_last() =~= said);
            assert((said + more).last() == more[0]);
        }
    }
}

proof fn lemma_no_fault_no_report(peer: SubstreamState, messages: Seq<MessageView>, chance: Chance)
    requires
        finds_no_fault(peer, messages, chance),
    ensures
        forall|i: int|
            0 <= i < peer.calls_all(messages, chance).len() ==> #[trigger] peer.calls_all(
                messages,
                chance,
            )[i] is GetRandom,
    decreases messages.len(),
{
    if messages.len() > 0 {
        lemma_no_fault_no_report(peer, messages.drop_last(), chance);
    }
}

proof fn lemma_no_fault_in_part(
    peer: SubstreamState,
    messages: Seq<MessageView>,
    n: int,
    chance: Chance,
)
    requires
        finds_no_fault(peer, messages, chance),
        0 <= n <= messages.len(),
    ensures
        finds_no_fault(peer, messages.take(n), chance),
    decreases messages.len(),
{
    if n < messages.len() {
        assert(messages.drop_last().take(n) =~= messages.take(n));
        lemma_no_fault_in_part(peer, messages.drop_last(), n, chance);
    } else {
        assert(messages.take(n) =~= messages);
    }
}

/// No message that a substream has for its peer is too long for a frame.
pub proof fn law_own_messages_fit_a_frame(
    direction: Direction,
    max_known: nat,
    remote_addr: SocketAddr,
    deeds: Seq<Deed>,
)
    requires
        chances_are_valid(deeds),
    ensures
        ({
            let fresh = SubstreamState::fresh(direction, max_known, remote_addr);
            forall|i: int|
                0 <= i < messages_for_peer(fresh, deeds).len() ==> wire_len(
                    wire_of(#[trigger] messages_for_peer(fresh, deeds)[i]),
                ) <= MAX_FRAME_LEN
        }),
    decreases deeds.len(),
{
    let fresh = SubstreamState::fresh(direction, max_known, remote_addr);
    if deeds.len() > 0 {
        let earlier = deeds.drop_last();
        assert forall|i: int| 0 <= i < earlier.len() implies (
        #[trigger] earlier[i] matches Deed::Received { chance, .. } ==> chance.valid()) by {
            assert(earlier[i] == deeds[i]);
        }
        assert(deeds[deeds.len() - 1] == deeds.last());
        law_own_messages_fit_a_frame(direction, max_known, remote_addr, earlier);
        let chance = Chance { addrs: Seq::empty(), picks: Seq::empty() };
        lemma_no_fault_so_far(fresh, earlier, fresh, chance);
        let mid = after_deeds(fresh, earlier);
        let more = joining(mid, deeds.last());
        lemma_one_message_joins(mid, deeds.last());
        if more.len() > 0 {
            lemma_len_of_anonymous_list(more[0]->Nodes_0);
        }
    }
}

/// Whatever happens to a substream, a peer that follows the same rules, and that
/// has had neither a question nor an answer on it before, finds no fault in what the
/// substream gives to its stream: of two peers that use this library, neither
/// reports the other.
pub proof fn law_peers_do_not_report_each_other(
    direction: Direction,
    max_known: nat,
    remote_addr: SocketAddr,
    deeds: Seq<Deed>,
    peer: SubstreamState,
    chance: Chance,
)
    requires
        chances_are_valid(deeds),
        refusals_are_true(SubstreamState::fresh(direction, max_known, remote_addr), deeds),
        !peer.received_get_nodes,
        !peer.received_nodes,
    ensures
        ({
            let fresh = SubstreamState::fresh(direction, max_known, remote_addr);
            &&& finds_no_fault(peer, messages_for_peer(fresh, deeds), chance)
            &&& finds_no_fault(peer, given_to_stream(fresh, deeds), chance)
            &&& forall|i: int|
                0 <= i < peer.calls_all(given_to_stream(fresh, deeds), chance).len()
                    ==> #[trigger] peer.calls_all(given_to_stream(fresh, deeds), chance)[i]
                    !is Misbehave
        }),
{
    let fresh = SubstreamState::fresh(direction, max_known, remote_addr);
    let all = messages_for_peer(fresh, deeds);
    let given = given_to_stream(fresh, deeds);
    lemma_no_fault_so_far(fresh, deeds, peer, chance);
    law_messages_are_sent_in_order(fresh, deeds);
    assert(all.take(given.len() as int) =~= given);
    lemma_no_fault_in_part(peer, all, given.len() as int, chance);
    lemma_no_fault_no_report(peer, given, chance);
}

// ---------------------------------------------------------------------------
// What a round does to one substream.
// ---------------------------------------------------------------------------

/// Whether a substream is among those to which an address is put forward.
pub open spec fn is_chosen(order: Seq<SubstreamKey>, key: SubstreamKey) -> bool {
    exists|i: int| 0 <= i < order.len() && i < ANNOUNCE_FANOUT && #[trigger] order[i] == key
}

/// What putting `addrs` forward does to a substream.
pub open spec fn spreading_deeds(
    addrs: Seq<SocketAddr>,
    shuffles: Seq<Seq<SubstreamKey>>,
    key: SubstreamKey,
) -> Seq<Deed>
    decreases addrs.len(),
{
    if addrs.len() == 0 {
        Seq::empty()
    } else {
        let before = spreading_deeds(addrs.drop_last(), shuffles.drop_last(), key);
        if is_chosen(shuffles.last(), key) {
            before.push(Deed::Offered(addrs.last()))
        } else {
            before
        }
    }
}

/// What going on to tell the substreams in `rest` does to a substream.
pub open spec fn telling_deeds(rest: Seq<SubstreamKey>, key: SubstreamKey) -> Seq<Deed> {
    if rest.len() > 0 && rest.last() == key {
        seq![Deed::Told, Deed::Sending(SendEvent::Start)]
    } else {
        Seq::empty()
    }
}

/// What going on to poll the substreams in `rest` does to a substream.
pub open spec fn polling_deeds(
    rest: Seq<SubstreamKey>,
    announce_addrs: Seq<SocketAddr>,
    orders: Orders,
    key: SubstreamKey,
) -> Seq<Deed> {
    if rest.len() == 0 {
        spreading_deeds(announce_addrs, orders.shuffles, key) + telling_deeds(orders.told, key)
    } else {
        Seq::empty()
    }
}

/// What a step does to a substream.
pub open spec fn deeds_of(pre: DiscoveryState, turn: Turn, key: SubstreamKey) -> Seq<Deed> {
    match (pre.stage, turn.event) {
        (Stage::Idle, PollEvent::Receiver(polled)) => if polled is Failed {
            Seq::empty()
        } else {
            polling_deeds(turn.orders.polled, Seq::empty(), turn.orders, key)
        },
        (
            Stage::Polling { key: current, .. },
            PollEvent::Substream { timer, arrived, end },
        ) => if current == key {
            seq![
                Deed::Timed(timer),
                Deed::Received {
                    messages: messages_view(arrived@),
                    end,
                    chance: turn.orders.chance,
                },
                Deed::Sending(SendEvent::Start),
            ]
        } else {
            Seq::empty()
        },
        (Stage::Sending { key: current, rest, announce_addrs }, PollEvent::Send(event)) => {
            let own = if current == key {
                seq![Deed::Sending(event)]
            } else {
                Seq::empty()
            };
            if send_ends(event) {
                let addrs = announce_addrs + places(taken_up(pre, turn));
                let taken = if current == key {
                    own.push(Deed::Announced)
                } else {
                    own
                };
                taken + polling_deeds(rest, addrs, turn.orders, key)
            } else {
                own
            }
        },
        (Stage::Telling { key: current, rest }, PollEvent::Send(event)) => {
            let own = if current == key {
                seq![Deed::Sending(event)]
            } else {
                Seq::empty()
            };
            if send_ends(event) {
                own + telling_deeds(rest, key)
            } else {
                own
            }
        },
        _ => Seq::empty(),
    }
}

/// The substreams at the start of a step, with the one that the step opens.
pub open spec fn at_start(pre: DiscoveryState, turn: Turn) -> Map<SubstreamKey, SubstreamState> {
    match turn.event {
        PollEvent::Receiver(ReceiverPoll::Substream(substream)) => pre.substreams.insert(
            SubstreamKey {
                remote_addr: substream.remote_addr,
                direction: substream.direction,
                substream_id: substream.stream_id,
            },
            SubstreamState::fresh(substream.direction, pre.max_known, substream.remote_addr),
        ),
        _ => pre.substreams,
    }
}

proof fn lemma_deeds_add_up(state: SubstreamState, first: Seq<Deed>, second: Seq<Deed>)
    ensures
        after_deeds(state, first + second) == after_deeds(after_deeds(state, first), second),
    decreases second.len(),
{
    if second.len() == 0 {
        assert(first + second =~= first);
    } else {
        assert((first + second).drop_last() =~= first + second.drop_last());
        assert((first + second).last() == second.last());
        lemma_deeds_add_up(state, first, second.drop_last());
    }
}

proof fn lemma_one_deed(state: SubstreamState, deed: Deed)
    ensures
        after_deeds(state, seq![deed]) == after_deed(state, deed),
{
    reveal_with_fuel(after_deeds, 2);
    assert(seq![deed].drop_last() =~= Seq::empty());
}

proof fn lemma_two_deeds(state: SubstreamState, first: Deed, second: Deed)
    ensures
        after_deeds(state, seq![first, second]) == after_deed(after_deed(state, first), second),
{
    lemma_one_deed(state, first);
    assert(seq![first, second].drop_last() =~= seq![first]);
}

proof fn lemma_spreading_deeds(
    open: Map<SubstreamKey, SubstreamState>,
    addrs: Seq<SocketAddr>,
    shuffles: Seq<Seq<SubstreamKey>>,
    key: SubstreamKey,
)
    requires
        are_shuffles(shuffles, addrs.len(), open.dom()),
        open.contains_key(key),
    ensures
        spread_out(open, addrs, shuffles)[key] == after_deeds(
            open[key],
            spreading_deeds(addrs, shuffles, key),
        ),
    decreases addrs.len(),
{
    if addrs.len() > 0 {
        let fewer = shuffles.drop_last();
        assert forall|i: int| 0 <= i < fewer.len() implies is_order(
            #[trigger] fewer[i],
            open.dom(),
        ) by {
            assert(is_order(shuffles[i], open.dom()));
        }
        lemma_spreading_deeds(open, addrs.drop_last(), fewer, key);
        lemma_spread_keeps_dom(open, addrs.drop_last(), fewer);
        let mid = spread_out(open, addrs.drop_last(), fewer);
        let order = shuffles.last();
        assert(is_order(shuffles[shuffles.len() - 1], open.dom()));
        law_address_goes_to_two(mid, addrs.last(), order);
        assert(order.to_set().contains(key));
        let at = choose|i: int| 0 <= i < order.len() && order[i] == key;
        assert(spread_out(open, addrs, shuffles)[order[at]] == if at < ANNOUNCE_FANOUT {
            mid[key].offered(addrs.last())
        } else {
            mid[key]
        });
        assert(is_chosen(order, key) == (at < ANNOUNCE_FANOUT));
        let before = spreading_deeds(addrs.drop_last(), fewer, key);
        assert(before.push(Deed::Offered(addrs.last())).drop_last() =~= before);
    }
}

proof fn lemma_telling_deeds(
    state: DiscoveryState,
    rest: Seq<SubstreamKey>,
    post: DiscoveryState,
    action: PollAction,
    key: SubstreamKey,
)
    requires
        state.goes_on_telling(rest, post, action),
        state.substreams.contains_key(key),
    ensures
        post.substreams[key] == after_deeds(state.substreams[key], telling_deeds(rest, key)),
{
    lemma_two_deeds(state.substreams[key], Deed::Told, Deed::Sending(SendEvent::Start));
}

proof fn lemma_polling_deeds(
    state: DiscoveryState,
    rest: Seq<SubstreamKey>,
    announce_addrs: Seq<SocketAddr>,
    orders: Orders,
    post: DiscoveryState,
    action: PollAction,
    key: SubstreamKey,
)
    requires
        state.goes_on_polling(rest, announce_addrs, orders, post, action),
        state.substreams.contains_key(key),
        post.substreams.contains_key(key),
    ensures
        post.substreams[key] == after_deeds(
            state.substreams[key],
            polling_deeds(rest, announce_addrs, orders, key),
        ),
{
    if rest.len() == 0 {
        lemma_going_on_polling(state, rest, announce_addrs, orders, post, action);
        let swept = state.swept();
        assert(post.substreams.dom().contains(key));
        assert(swept.substreams.contains_key(key));
        lemma_spreading_deeds(swept.substreams, announce_addrs, orders.shuffles, key);
        lemma_spread_keeps_dom(swept.substreams, announce_addrs, orders.shuffles);
        let told = swept.spread(announce_addrs, orders.shuffles);
        lemma_telling_deeds(told, orders.told, post, action, key);
        lemma_deeds_add_up(
            state.substreams[key],
            spreading_deeds(announce_addrs, orders.shuffles, key),
            telling_deeds(orders.told, key),
        );
    }
}

/// Nothing but what can happen to a substream happens to it in a step: a substream
/// that is open at the start of a step and after it has become what it is by the
/// deeds of the step.
pub proof fn law_step_does_deeds(pre: DiscoveryState, turn: Turn, key: SubstreamKey)
    requires
        pre.steps(turn.event, turn.orders, turn.post, turn.action),
        at_start(pre, turn).contains_key(key),
        turn.post.substreams.contains_key(key),
    ensures
        turn.post.substreams[key] == after_deeds(
            at_start(pre, turn)[key],
            deeds_of(pre, turn, key),
        ),
        chances_are_valid(deeds_of(pre, turn, key)),
{
    let post = turn.post;
    let start = at_start(pre, turn)[key];
    match (pre.stage, turn.event) {
        (Stage::Idle, PollEvent::Receiver(polled)) => {
            if polled !is Failed {
                lemma_polling_deeds(
                    pre.opened(polled),
                    turn.orders.polled,
                    Seq::empty(),
                    turn.orders,
                    post,
                    turn.action,
                    key,
                );
            }
        },
        (
            Stage::Polling { key: current, rest, announce_addrs },
            PollEvent::Substream { timer, arrived, end },
        ) => {
            if current == key {
                let timed = Deed::Timed(timer);
                let received = Deed::Received {
                    messages: messages_view(arrived@),
                    end,
                    chance: turn.orders.chance,
                };
                let sending = Deed::Sending(SendEvent::Start);
                lemma_two_deeds(start, timed, received);
                assert(seq![timed, received, sending].drop_last() =~= seq![timed, received]);
            }
        },
        (Stage::Sending { key: current, rest, announce_addrs }, PollEvent::Send(event)) => {
            let value = pre.substreams[current];
            let sent = pre.with(current, value.sending(event)).noted(current, send_fails(event));
            lemma_one_deed(start, Deed::Sending(event));
            if send_ends(event) {
                let after = sent.with(current, value.sending(event).announced());
                let addrs = announce_addrs + places(taken_up(pre, turn));
                assert(addrs =~= if value.announce {
                    announce_addrs.push(value.remote_addr)
                } else {
                    announce_addrs
                });
                lemma_polling_deeds(after, rest, addrs, turn.orders, post, turn.action, key);
                let more = polling_deeds(rest, addrs, turn.orders, key);
                if current == key {
                    let own = seq![Deed::Sending(event)];
                    lemma_two_deeds(start, Deed::Sending(event), Deed::Announced);
                    assert(own.push(Deed::Announced) =~= seq![
                        Deed::Sending(event),
                        Deed::Announced,
                    ]);
                    lemma_deeds_add_up(start, own.push(Deed::Announced), more);
                } else {
                    assert(Seq::<Deed>::empty() + more =~= more);
                }
            }
        },
        (Stage::Telling { key: current, rest }, PollEvent::Send(event)) => {
            let value = pre.substreams[current];
            let after = pre.with(current, value.sending(event)).noted(current, send_fails(event));
            lemma_one_deed(start, Deed::Sending(event));
            if send_ends(event) {
                lemma_telling_deeds(after, rest, post, turn.action, key);
                let more = telling_deeds(rest, key);
                if current == key {
                    lemma_deeds_add_up(start, seq![Deed::Sending(event)], more);
                } else {
                    assert(Seq::<Deed>::empty() + more =~= more);
                }
            }
        },
        _ => {},
    }
    lemma_only_polling_receives(pre, turn, key);
}

proof fn lemma_spreading_only_offers(
    addrs: Seq<SocketAddr>,
    shuffles: Seq<Seq<SubstreamKey>>,
    key: SubstreamKey,
)
    ensures
        forall|i: int|
            0 <= i < spreading_deeds(addrs, shuffles, key).len() ==> #[trigger] spreading_deeds(
                addrs,
                shuffles,
                key,
            )[i] is Offered,
    decreases addrs.len(),
{
    if addrs.len() > 0 {
        lemma_spreading_only_offers(addrs.drop_last(), shuffles.drop_last(), key);
    }
}

/// Messages are received when a substream is polled, and a stream gives a message
/// back at the start of a step; at no other point of a step.
pub(crate) proof fn lemma_only_polling_receives(pre: DiscoveryState, turn: Turn, key: SubstreamKey)
    ensures
        forall|i: int|
            0 <= i < deeds_of(pre, turn, key).len() ==> {
                let deed = #[trigger] deeds_of(pre, turn, key)[i];
                &&& deed is Received ==> deed->chance == turn.orders.chance
                    && pre.stage is Polling
                &&& deed is Sending && i > 0 ==> deed->Sending_0 is Start
            },
{
    match (pre.stage, turn.event) {
        (Stage::Idle, PollEvent::Receiver(polled)) => {
            lemma_spreading_only_offers(Seq::empty(), turn.orders.shuffles, key);
        },
        (Stage::Sending { announce_addrs, .. }, PollEvent::Send(event)) => {
            let addrs = announce_addrs + places(taken_up(pre, turn));
            lemma_spreading_only_offers(addrs, turn.orders.shuffles, key);
        },
        _ => {},
    }
}

/// Whether a step opens the substream `key`.
pub open spec fn opens(turn: Turn, key: SubstreamKey) -> bool {
    turn.event matches PollEvent::Receiver(ReceiverPoll::Substream(substream)) && key
        == SubstreamKey {
        remote_addr: substream.remote_addr,
        direction: substream.direction,
        substream_id: substream.stream_id,
    }
}

/// Whether a substream is open during some steps, and is not replaced after the
/// start of the first.
pub open spec fn stays_open(pre: DiscoveryState, turns: Seq<Turn>, key: SubstreamKey) -> bool {
    &&& is_run(pre, turns)
    &&& turns.len() > 0
    &&& at_start(pre, turns[0]).contains_key(key)
    &&& forall|i: int|
        0 <= i < turns.len() ==> (#[trigger] turns[i]).post.substreams.contains_key(key)
    &&& forall|i: int| 0 < i < turns.len() ==> !opens(#[trigger] turns[i], key)
}

/// What some steps do to a substream.
pub open spec fn all_deeds(pre: DiscoveryState, turns: Seq<Turn>, key: SubstreamKey) -> Seq<Deed>
    decreases turns.len(),
{
    if turns.len() == 0 {
        Seq::empty()
    } else {
        all_deeds(pre, turns.drop_last(), key) + deeds_of(
            state_after(pre, turns.drop_last()),
            turns.last(),
            key,
        )
    }
}

proof fn lemma_stays_open_before(pre: DiscoveryState, turns: Seq<Turn>, key: SubstreamKey)
    requires
        stays_open(pre, turns, key),
        turns.len() > 1,
    ensures
        stays_open(pre, turns.drop_last(), key),
        turns.drop_last()[0] == turns[0],
        state_after(pre, turns.drop_last()) == turns[turns.len() - 2].post,
        state_after(pre, turns.drop_last()).substreams.contains_key(key),
        at_start(state_after(pre, turns.drop_last()), turns.last()).contains_key(key),
        at_start(state_after(pre, turns.drop_last()), turns.last())[key] == state_after(
            pre,
            turns.drop_last(),
        ).substreams[key],
{
    let earlier = turns.drop_last();
    assert forall|i: int| 0 <= i < earlier.len() implies (
    #[trigger] earlier[i]).post.substreams.contains_key(key) by {
        assert(earlier[i] == turns[i]);
    }
    assert forall|i: int| 0 < i < earlier.len() implies !opens(#[trigger] earlier[i], key) by {
        assert(earlier[i] == turns[i]);
    }
    assert(earlier.last() == turns[turns.len() - 2]);
    assert(!opens(turns[turns.len() - 1], key));
}

/// As long as a substream stays open, it is what the deeds of the steps have made
/// of it.
pub proof fn law_steps_do_deeds(pre: DiscoveryState, turns: Seq<Turn>, key: SubstreamKey)
    requires
        stays_open(pre, turns, key),
    ensures
        state_after(pre, turns).substreams[key] == after_deeds(
            at_start(pre, turns[0])[key],
            all_deeds(pre, turns, key),
        ),
        chances_are_valid(all_deeds(pre, turns, key)),
    decreases turns.len(),
{
    let earlier = turns.drop_last();
    let mid = state_after(pre, earlier);
    let turn = turns.last();
    let start = at_start(pre, turns[0])[key];
    let more = deeds_of(mid, turn, key);
    assert(turns[turns.len() - 1] == turn);
    if turns.len() == 1 {
        reveal_with_fuel(all_deeds, 2);
        assert(earlier =~= Seq::empty());
        law_step_does_deeds(pre, turn, key);
        assert(Seq::<Deed>::empty() + more =~= more);
    } else {
        lemma_stays_open_before(pre, turns, key);
        law_steps_do_deeds(pre, earlier, key);
        law_step_does_deeds(mid, turn, key);
        lemma_deeds_add_up(start, all_deeds(pre, earlier, key), more);
    }
}

/// The messages that the stream of a substream was given in some steps and did not
/// give back.
pub open spec fn sent_on(turns: Seq<Turn>, key: SubstreamKey) -> Seq<MessageView>
    decreases turns.len(),
{
    if turns.len() == 0 {
        Seq::empty()
    } else {
        let before = sent_on(turns.drop_last(), key);
        let kept = if gives_back(turns, key) {
            before.drop_last()
        } else {
            before
        };
        match turns.last().action {
            PollAction::StartSend(to, message) => if to == key {
                kept.push(message@)
            } else {
                kept
            },
            _ => kept,
        }
    }
}

/// Whether in the last step the stream of a substream gave back the message that it
/// was given in the step before.
pub open spec fn gives_back(turns: Seq<Turn>, key: SubstreamKey) -> bool {
    &&& turns.len() > 1
    &&& turns.last().event matches PollEvent::Send(SendEvent::Refused(_))
    &&& turns[turns.len() - 2].action matches PollAction::StartSend(to, _) && to == key
}

/// Whether streams give back no message but the one that they were given in the
/// step before.
pub open spec fn streams_are_true(turns: Seq<Turn>) -> bool {
    forall|i: int|
        0 <= i < turns.len() ==> (
        (#[trigger] turns[i]).event matches PollEvent::Send(SendEvent::Refused(back)) ==> {
            &&& i > 0
            &&& turns[i - 1].action matches PollAction::StartSend(_, message) && message@ == back@
        })
}

/// What the stream was given and did not give back, once some more things have
/// happened.
spec fn given_after(
    given: Seq<MessageView>,
    state: SubstreamState,
    deeds: Seq<Deed>,
) -> Seq<MessageView>
    decreases deeds.len(),
{
    if deeds.len() == 0 {
        given
    } else {
        let before = given_after(given, state, deeds.drop_last());
        let queue = after_deeds(state, deeds.drop_last()).pending_messages;
        match deeds.last() {
            Deed::Sending(SendEvent::Start) | Deed::Sending(SendEvent::Accepted) => {
                if queue.len() > 0 {
                    before.push(queue.first())
                } else {
                    before
                }
            },
            Deed::Sending(SendEvent::Refused(_)) => before.drop_last(),
            _ => before,
        }
    }
}

proof fn lemma_given_adds_up(state: SubstreamState, first: Seq<Deed>, second: Seq<Deed>)
    ensures
        given_to_stream(state, first + second) == given_after(
            given_to_stream(state, first),
            after_deeds(state, first),
            second,
        ),
    decreases second.len(),
{
    if second.len() == 0 {
        assert(first + second =~= first);
    } else {
        assert((first + second).drop_last() =~= first + second.drop_last());
        assert((first + second).last() == second.last());
        lemma_given_adds_up(state, first, second.drop_last());
        lemma_deeds_add_up(state, first, second.drop_last());
    }
}

proof fn lemma_given_after_adds_up(
    given: Seq<MessageView>,
    state: SubstreamState,
    first: Seq<Deed>,
    second: Seq<Deed>,
)
    ensures
        given_after(given, state, first + second) == given_after(
            given_after(given, state, first),
            after_deeds(state, first),
            second,
        ),
    decreases second.len(),
{
    if second.len() == 0 {
        assert(first + second =~= first);
    } else {
        assert((first + second).drop_last() =~= first + second.drop_last());
        assert((first + second).last() == second.last());
        lemma_given_after_adds_up(given, state, first, second.drop_last());
        lemma_deeds_add_up(state, first, second.drop_last());
    }
}

proof fn lemma_given_after_one(given: Seq<MessageView>, state: SubstreamState, deed: Deed)
    ensures
        given_after(given, state, seq![deed]) == (match deed {
            Deed::Sending(SendEvent::Start) | Deed::Sending(SendEvent::Accepted) => {
                if state.pending_messages.len() > 0 {
                    given.push(state.pending_messages.first())
                } else {
                    given
                }
            },
            Deed::Sending(SendEvent::Refused(_)) => given.drop_last(),
            _ => given,
        }),
{
    reveal_with_fuel(given_after, 2);
    assert(seq![deed].drop_last() =~= Seq::empty());
}

proof fn lemma_offering_sends_nothing(
    given: Seq<MessageView>,
    state: SubstreamState,
    deeds: Seq<Deed>,
)
    requires
        forall|i: int| 0 <= i < deeds.len() ==> #[trigger] deeds[i] is Offered,
    ensures
        given_after(given, state, deeds) == given,
        after_deeds(state, deeds).pending_messages == state.pending_messages,
    decreases deeds.len(),
{
    if deeds.len() > 0 {
        assert(deeds.last() == deeds[deeds.len() - 1]);
        assert forall|i: int|
            0 <= i < deeds.drop_last().len() implies #[trigger] deeds.drop_last()[i] is Offered by {
            assert(deeds.drop_last()[i] == deeds[i]);
        }
        lemma_offering_sends_nothing(given, state, deeds.drop_last());
    }
}

/// The message that an action gives to the stream of a substream, if any.
spec fn gives(action: PollAction, key: SubstreamKey) -> Seq<MessageView> {
    match action {
        PollAction::StartSend(to, message) => if to == key {
            seq![message@]
        } else {
            Seq::empty()
        },
        _ => Seq::empty(),
    }
}

proof fn lemma_telling_gives(
    state: DiscoveryState,
    rest: Seq<SubstreamKey>,
    post: DiscoveryState,
    action: PollAction,
    key: SubstreamKey,
    given: Seq<MessageView>,
)
    requires
        state.goes_on_telling(rest, post, action),
    ensures
        given_after(given, state.substreams[key], telling_deeds(rest, key)) == given + gives(
            action,
            key,
        ),
{
    let value = state.substreams[key];
    if rest.len() > 0 && rest.last() == key {
        let start = Deed::Sending(SendEvent::Start);
        lemma_one_deed(value, Deed::Told);
        lemma_given_after_one(given, value, Deed::Told);
        assert(seq![Deed::Told, start].drop_last() =~= seq![Deed::Told]);
    }
    assert(given_after(given, value, telling_deeds(rest, key)) =~= given + gives(action, key));
}

proof fn lemma_polling_gives(
    state: DiscoveryState,
    rest: Seq<SubstreamKey>,
    announce_addrs: Seq<SocketAddr>,
    orders: Orders,
    post: DiscoveryState,
    action: PollAction,
    key: SubstreamKey,
    given: Seq<MessageView>,
)
    requires
        state.goes_on_polling(rest, announce_addrs, orders, post, action),
        state.substreams.contains_key(key),
        post.substreams.contains_key(key),
    ensures
        given_after(
            given,
            state.substreams[key],
            polling_deeds(rest, announce_addrs, orders, key),
        ) == given + gives(action, key),
{
    if rest.len() == 0 {
        lemma_going_on_polling(state, rest, announce_addrs, orders, post, action);
        let swept = state.swept();
        assert(post.substreams.dom().contains(key));
        assert(swept.substreams.contains_key(key));
        lemma_spreading_deeds(swept.substreams, announce_addrs, orders.shuffles, key);
        lemma_spreading_only_offers(announce_addrs, orders.shuffles, key);
        let value = state.substreams[key];
        let offers = spreading_deeds(announce_addrs, orders.shuffles, key);
        lemma_offering_sends_nothing(given, value, offers);
        let told = swept.spread(announce_addrs, orders.shuffles);
        lemma_telling_gives(told, orders.told, post, action, key, given);
        lemma_given_after_adds_up(given, value, offers, telling_deeds(orders.told, key));
    } else {
        assert(given + gives(action, key) =~= given);
    }
}

/// What the stream of a substream has been given after a step: what it had been
/// given before, without the message that it gave back, and the message that the
/// step gives to it.
proof fn lemma_step_gives(
    pre: DiscoveryState,
    turn: Turn,
    key: SubstreamKey,
    given: Seq<MessageView>,
)
    requires
        pre.steps(turn.event, turn.orders, turn.post, turn.action),
        at_start(pre, turn).contains_key(key),
        turn.post.substreams.contains_key(key),
    ensures
        given_after(given, at_start(pre, turn)[key], deeds_of(pre, turn, key)) == (if turn.event
            matches PollEvent::Send(SendEvent::Refused(_)) && current(pre) == seq![key] {
            given.drop_last()
        } else {
            given
        }) + gives(turn.action, key),
{
    let post = turn.post;
    let start = at_start(pre, turn)[key];
    let deeds = deeds_of(pre, turn, key);
    let kept = if turn.event matches PollEvent::Send(SendEvent::Refused(_)) && current(pre) == seq![
        key,
    ] {
        given.drop_last()
    } else {
        given
    };
    assert(current(pre).len() > 0 ==> (current(pre) == seq![key] <==> current(pre)[0] == key)) by {
        if current(pre).len() > 0 && current(pre)[0] == key {
            assert(current(pre) =~= seq![key]);
        }
        assert(seq![key][0] == key);
    }
    match (pre.stage, turn.event) {
        (Stage::Idle, PollEvent::Receiver(polled)) => {
            if polled !is Failed {
                lemma_polling_gives(
                    pre.opened(polled),
                    turn.orders.polled,
                    Seq::empty(),
                    turn.orders,
                    post,
                    turn.action,
                    key,
                    given,
                );
            }
        },
        (
            Stage::Polling { key: polled, rest, announce_addrs },
            PollEvent::Substream { timer, arrived, end },
        ) => {
            if polled == key {
                let timed = Deed::Timed(timer);
                let received = Deed::Received {
                    messages: messages_view(arrived@),
                    end,
                    chance: turn.orders.chance,
                };
                let sending = Deed::Sending(SendEvent::Start);
                lemma_given_after_one(given, start, timed);
                assert(seq![timed, received].drop_last() =~= seq![timed]);
                assert(given_after(given, start, seq![timed, received]) == given);
                lemma_two_deeds(start, timed, received);
                assert(seq![timed, received, sending].drop_last() =~= seq![timed, received]);
            }
        },
        (Stage::Sending { key: sender, rest, announce_addrs }, PollEvent::Send(event)) => {
            let value = pre.substreams[sender];
            let sent = pre.with(sender, value.sending(event)).noted(sender, send_fails(event));
            lemma_given_after_one(given, start, Deed::Sending(event));
            if send_ends(event) {
                let after = sent.with(sender, value.sending(event).announced());
                let addrs = announce_addrs + places(taken_up(pre, turn));
                assert(addrs =~= if value.announce {
                    announce_addrs.push(value.remote_addr)
                } else {
                    announce_addrs
                });
                let more = polling_deeds(rest, addrs, turn.orders, key);
                lemma_polling_gives(after, rest, addrs, turn.orders, post, turn.action, key, kept);
                if sender == key {
                    let own = seq![Deed::Sending(event)].push(Deed::Announced);
                    lemma_two_deeds(start, Deed::Sending(event), Deed::Announced);
                    assert(own =~= seq![Deed::Sending(event), Deed::Announced]);
                    assert(own.drop_last() =~= seq![Deed::Sending(event)]);
                    lemma_given_after_adds_up(given, start, own, more);
                } else {
                    assert(Seq::<Deed>::empty() + more =~= more);
                }
            }
        },
        (Stage::Telling { key: sender, rest }, PollEvent::Send(event)) => {
            let value = pre.substreams[sender];
            let after = pre.with(sender, value.sending(event)).noted(sender, send_fails(event));
            lemma_given_after_one(given, start, Deed::Sending(event));
            if send_ends(event) {
                let more = telling_deeds(rest, key);
                lemma_telling_gives(after, rest, post, turn.action, key, kept);
                if sender == key {
                    lemma_one_deed(start, Deed::Sending(event));
                    lemma_given_after_adds_up(given, start, seq![Deed::Sending(event)], more);
                } else {
                    assert(Seq::<Deed>::empty() + more =~= more);
                }
            }
        },
        _ => {},
    }
    assert(given_after(given, start, deeds) =~= kept + gives(turn.action, key));
}

proof fn lemma_refusals_stay_true(
    state: SubstreamState,
    deeds: Seq<Deed>,
    more: Seq<Deed>,
)
    requires
        refusals_are_true(state, deeds),
        forall|i: int|
            0 < i < more.len() && #[trigger] more[i] is Sending ==> more[i]->Sending_0 is Start,
        more.len() > 0 ==> (more[0] matches Deed::Sending(SendEvent::Refused(message)) ==> {
            &&& given_to_stream(state, deeds).len() > 0
            &&& given_to_stream(state, deeds).last() == message@
        }),
    ensures
        refusals_are_true(state, deeds + more),
    decreases more.len(),
{
    if more.len() == 0 {
        assert(deeds + more =~= deeds);
    } else {
        let fewer = more.drop_last();
        assert forall|i: int| 0 < i < fewer.len() && #[trigger] fewer[i] is Sending implies fewer[i]
            ->Sending_0 is Start by {
            assert(fewer[i] == more[i]);
        }
        lemma_refusals_stay_true(state, deeds, fewer);
        assert((deeds + more).drop_last() =~= deeds + fewer);
        assert((deeds + more).last() == more[more.len() - 1]);
        if more.len() == 1 {
            assert(deeds + fewer =~= deeds);
        }
    }
}

/// A substream whose stream is given a message has its turn.
proof fn lemma_sender_is_current(pre: DiscoveryState, turns: Seq<Turn>)
    requires
        is_run(pre, turns),
        turns.len() > 0,
    ensures
        turns.last().action matches PollAction::StartSend(to, _) ==> current(
            state_after(pre, turns),
        ) == seq![to],
{
}

/// A message that comes back is the one that the stream was given last.
proof fn lemma_last_comes_back(pre: DiscoveryState, turns: Seq<Turn>, key: SubstreamKey)
    requires
        is_run(pre, turns),
        streams_are_true(turns),
        turns.len() > 1,
        turns.last().event matches PollEvent::Send(SendEvent::Refused(_)),
    ensures
        gives_back(turns, key) <==> current(state_after(pre, turns.drop_last())) == seq![key],
        gives_back(turns, key) ==> {
            &&& sent_on(turns.drop_last(), key).len() > 0
            &&& turns.last().event matches PollEvent::Send(SendEvent::Refused(back))
                && sent_on(turns.drop_last(), key).last() == back@
        },
{
    let earlier = turns.drop_last();
    assert(turns[turns.len() - 1] == turns.last());
    assert(earlier.last() == turns[turns.len() - 2]);
    lemma_sender_is_current(pre, earlier);
    let to = earlier.last().action->StartSend_0;
    assert(seq![to][0] == to && seq![key][0] == key);
}

proof fn lemma_what_is_sent_first(pre: DiscoveryState, turns: Seq<Turn>, key: SubstreamKey)
    requires
        stays_open(pre, turns, key),
        streams_are_true(turns),
        turns.len() == 1,
    ensures
        sent_on(turns, key) == given_to_stream(
            at_start(pre, turns[0])[key],
            all_deeds(pre, turns, key),
        ),
        refusals_are_true(at_start(pre, turns[0])[key], all_deeds(pre, turns, key)),
{
    let turn = turns[0];
    let start = at_start(pre, turn)[key];
    let none = Seq::<Deed>::empty();
    let more = deeds_of(pre, turn, key);
    assert(turns.drop_last() =~= Seq::empty());
    reveal_with_fuel(all_deeds, 2);
    reveal_with_fuel(sent_on, 2);
    lemma_only_polling_receives(pre, turn, key);
    lemma_own_event_comes_first(pre, turn, key);
    lemma_step_gives(pre, turn, key, Seq::empty());
    lemma_given_adds_up(start, none, more);
    lemma_refusals_stay_true(start, none, more);
    assert(none + more =~= more);
    assert(sent_on(turns, key) =~= gives(turn.action, key));
    assert(Seq::<MessageView>::empty() + gives(turn.action, key) =~= gives(turn.action, key));
}

pub(crate) proof fn lemma_what_is_sent(pre: DiscoveryState, turns: Seq<Turn>, key: SubstreamKey)
    requires
        stays_open(pre, turns, key),
        streams_are_true(turns),
    ensures
        sent_on(turns, key) == given_to_stream(
            at_start(pre, turns[0])[key],
            all_deeds(pre, turns, key),
        ),
        refusals_are_true(at_start(pre, turns[0])[key], all_deeds(pre, turns, key)),
    decreases turns.len(),
{
    if turns.len() == 1 {
        lemma_what_is_sent_first(pre, turns, key);
    } else {
        let earlier = turns.drop_last();
        let mid = state_after(pre, earlier);
        let turn = turns.last();
        let start = at_start(pre, turns[0])[key];
        lemma_stays_open_before(pre, turns, key);
        assert(streams_are_true(earlier)) by {
            assert forall|i: int| 0 <= i < earlier.len() implies (
            (#[trigger] earlier[i]).event matches PollEvent::Send(SendEvent::Refused(back)) ==> {
                &&& i > 0
                &&& earlier[i - 1].action matches PollAction::StartSend(_, message) && message@
                    == back@
            }) by {
                assert(earlier[i] == turns[i]);
            }
        }
        lemma_what_is_sent(pre, earlier, key);
        law_steps_do_deeds(pre, earlier, key);
        let deeds = all_deeds(pre, earlier, key);
        let more = deeds_of(mid, turn, key);
        let given = given_to_stream(start, deeds);
        assert(turns[turns.len() - 1] == turn);
        lemma_given_adds_up(start, deeds, more);
        lemma_step_gives(mid, turn, key, given);
        lemma_only_polling_receives(mid, turn, key);
        if turn.event matches PollEvent::Send(SendEvent::Refused(_)) {
            lemma_last_comes_back(pre, turns, key);
        }
        lemma_own_event_comes_first(mid, turn, key);
        lemma_refusals_stay_true(start, deeds, more);
        assert(sent_on(turns, key) =~= given_to_stream(start, deeds + more));
    }
}

/// Where the first thing that a step does to a substream is a step of sending, it
/// is that of the event.
proof fn lemma_own_event_comes_first(pre: DiscoveryState, turn: Turn, key: SubstreamKey)
    ensures
        deeds_of(pre, turn, key).len() > 0 ==> (deeds_of(pre, turn, key)[0] matches Deed::Sending(
            event,
        ) ==> turn.event == PollEvent::Send(event) && current(pre) == seq![key]),
{
    match (pre.stage, turn.event) {
        (Stage::Idle, PollEvent::Receiver(polled)) => {
            lemma_spreading_only_offers(Seq::empty(), turn.orders.shuffles, key);
        },
        (Stage::Sending { announce_addrs, .. }, PollEvent::Send(event)) => {
            let addrs = announce_addrs + places(taken_up(pre, turn));
            lemma_spreading_only_offers(addrs, turn.orders.shuffles, key);
        },
        _ => {},
    }
}

/// Whatever happens in the rounds in which a substream is open, the peer at its
/// other end finds no fault in what it is sent, and does not report it, if it follows
/// the same rules and had neither a question nor an answer on the substream before.
pub proof fn law_discovery_is_not_reported(
    pre: DiscoveryState,
    turns: Seq<Turn>,
    key: SubstreamKey,
    peer: SubstreamState,
    chance: Chance,
)
    requires
        stays_open(pre, turns, key),
        opens(turns[0], key),
        streams_are_true(turns),
        !peer.received_get_nodes,
        !peer.received_nodes,
    ensures
        finds_no_fault(peer, sent_on(turns, key), chance),
        forall|i: int|
            0 <= i < peer.calls_all(sent_on(turns, key), chance).len()
                ==> #[trigger] peer.calls_all(sent_on(turns, key), chance)[i] !is Misbehave,
{
    let deeds = all_deeds(pre, turns, key);
    law_steps_do_deeds(pre, turns, key);
    lemma_what_is_sent(pre, turns, key);
    law_peers_do_not_report_each_other(
        key.direction,
        pre.max_known,
        key.remote_addr,
        deeds,
        peer,
        chance,
    );
}

} // verus!
