//! What holds of every run from the start, told by its events and actions.

use crate::addr::{AddrRaw, KnownAddrs, SocketAddr};
use crate::laws::{holds_question, law_address_goes_to_two};
use crate::message::{all_addresses, messages_view, DiscoveryMessage, MessageView};
use crate::operation_laws::{
    is_good_answer, is_to_be_passed_on, law_first_good_answer_counts,
    law_lists_are_passed_on_whole, law_reading_to_the_end,
};
use crate::peer_laws::{
    after_deeds, all_deeds, at_start, deeds_of, law_messages_are_sent_in_order,
    law_step_does_deeds, law_steps_do_deeds, lemma_only_polling_receives, lemma_what_is_sent,
    messages_for_peer, opens, sent_on, stays_open, streams_are_true, Deed,
};
use crate::round::{
    are_shuffles, is_order, lemma_current_and_rest, may_come_of, offered, send_ends, send_fails,
    DiscoveryState, Orders, PollAction, PollEvent, ReceiverPoll, Stage, ANNOUNCE_FANOUT,
};
use crate::round_laws::{
    all_brought_in, all_handed_over, brought_in, current, is_run, is_within_round,
    law_every_state_is_well_formed, law_lists_are_passed_on_in_order, lemma_before_last_turn,
    lemma_going_on_polling, lemma_going_on_telling, state_after, waiting, Turn,
};
use crate::substream::{
    lemma_receiving_leaves_the_rest, Chance, SendEvent, StreamEnd, SubstreamKey, SubstreamState,
    TimerPoll,
};
use vstd::prelude::*;

verus! {

// ---------------------------------------------------------------------------
// Events and actions.
// ---------------------------------------------------------------------------

/// At the start nothing is open, nothing waits and nothing has failed.
pub proof fn law_start(max_known: nat)
    ensures
        ({
            let start = DiscoveryState::initial(max_known);
            &&& start.max_known == max_known
            &&& start.pending_nodes.len() == 0
            &&& start.substreams.dom() == Set::<SubstreamKey>::empty()
            &&& start.err_keys == Set::<SubstreamKey>::empty()
            &&& start.stage is Idle
            &&& start.wf()
        }),
{
    assert(DiscoveryState::initial(max_known).substreams.dom() =~= Set::empty());
}

/// A step fails if and only if no more substreams can be received; and the limit of
/// what is known never changes.
pub proof fn law_only_the_receiver_fails(pre: DiscoveryState, turn: Turn)
    requires
        pre.steps(turn.event, turn.orders, turn.post, turn.action),
    ensures
        turn.action is Failed <==> turn.event == PollEvent::Receiver(ReceiverPoll::Failed),
        turn.action is Failed ==> turn.post == pre,
        turn.post.max_known == pre.max_known,
{
}

/// Whatever comes of an action is what is waited for: of polling a substream any
/// outcome, of sending any but a start, and at the end of a round any outcome of
/// polling for a new substream.
pub proof fn law_any_outcome_is_expected(
    key: SubstreamKey,
    read: bool,
    message: DiscoveryMessage,
    timer: TimerPoll,
    arrived: Vec<DiscoveryMessage>,
    end: StreamEnd,
    sent: SendEvent,
    polled: ReceiverPoll,
)
    ensures
        may_come_of(
            PollEvent::Substream { timer, arrived, end },
            PollAction::PollSubstream { key, read },
        ),
        sent !is Start ==> may_come_of(
            PollEvent::Send(sent),
            PollAction::StartSend(key, message),
        ),
        sent !is Start ==> may_come_of(PollEvent::Send(sent), PollAction::PollComplete(key)),
        may_come_of(PollEvent::Receiver(polled), PollAction::NotReady),
{
}

/// Sending is over for now when the stream gave a message back, was asked to write
/// out what it had taken, or failed; and it is a failure in the last case alone.
pub proof fn law_when_sending_ends(event: SendEvent)
    ensures
        match event {
            SendEvent::Start | SendEvent::Accepted => !send_ends(event) && !send_fails(event),
            SendEvent::Refused(_) | SendEvent::Completed => send_ends(event) && !send_fails(event),
            SendEvent::SendFailed | SendEvent::CompleteFailed => send_ends(event) && send_fails(
                event,
            ),
        },
{
}

/// An order of some substreams holds each of them once, and no other; and for each of
/// `n` addresses there is one.
pub proof fn law_orders_hold_everyone_once(
    keys: Seq<SubstreamKey>,
    shuffles: Seq<Seq<SubstreamKey>>,
    n: nat,
    set: Set<SubstreamKey>,
)
    ensures
        is_order(keys, set) ==> {
            &&& keys.no_duplicates()
            &&& forall|key: SubstreamKey| #[trigger] keys.contains(key) <==> set.contains(key)
        },
        are_shuffles(shuffles, n, set) ==> {
            &&& shuffles.len() == n
            &&& forall|i: int| 0 <= i < n ==> is_order(#[trigger] shuffles[i], set)
        },
{
    if is_order(keys, set) {
        assert forall|key: SubstreamKey| #[trigger] keys.contains(key) <==> set.contains(key) by {
            assert(keys.to_set().contains(key) == keys.contains(key));
        }
    }
}

/// Closing the substreams that have failed leaves all others as they are, and none
/// down as failed.
pub proof fn law_closing_leaves_the_others(state: DiscoveryState, key: SubstreamKey)
    ensures
        ({
            let left = state.swept();
            &&& left.substreams.contains_key(key) <==> state.substreams.contains_key(key)
                && !state.err_keys.contains(key)
            &&& left.substreams.contains_key(key) ==> left.substreams[key] == state.substreams[key]
            &&& left.err_keys == Set::<SubstreamKey>::empty()
            &&& left.pending_nodes == state.pending_nodes
        }),
{
}

/// The substream that an action is about, if any.
pub open spec fn about(action: PollAction) -> Seq<SubstreamKey> {
    match action {
        PollAction::PollSubstream { key, .. } => seq![key],
        PollAction::StartSend(key, _) => seq![key],
        PollAction::PollComplete(key) => seq![key],
        _ => Seq::empty(),
    }
}

/// An action is about the substream that has its turn. A substream that was polled
/// sends next, and goes on sending for as long as its stream takes what it is given:
/// the messages that wait, in their order, and, when none is left, a request to write
/// them out.
pub proof fn law_whoever_has_its_turn_sends(pre: DiscoveryState, turn: Turn)
    requires
        pre.steps(turn.event, turn.orders, turn.post, turn.action),
    ensures
        about(turn.action) == current(turn.post),
        turn.event is Substream || turn.event == PollEvent::Send(SendEvent::Accepted) ==> {
            &&& about(turn.action) == current(pre)
            &&& turn.action is StartSend || turn.action is PollComplete
        },
        turn.action matches PollAction::PollComplete(key) ==> turn.post.substreams.contains_key(key)
            && turn.post.substreams[key].pending_messages.len() == 0,
        turn.action is PollSubstream <==> turn.post.stage is Polling,
        turn.post.stage is Idle <==> turn.action is Ready || turn.action is NotReady
            || turn.action is Failed,
{
    assert(about(turn.action) =~= current(turn.post));
}

/// An address is put forward to the first two substreams of an order, or to the only
/// one there is, and to no other.
pub proof fn law_address_goes_to_first_two(
    open: Map<SubstreamKey, SubstreamState>,
    addr: SocketAddr,
    order: Seq<SubstreamKey>,
)
    requires
        is_order(order, open.dom()),
    ensures
        ({
            let after = offered(open, addr, order, ANNOUNCE_FANOUT as nat);
            &&& after.dom() == open.dom()
            &&& order.len() > 0 ==> after[order[0]] == open[order[0]].offered(addr)
            &&& order.len() > 1 ==> after[order[1]] == open[order[1]].offered(addr)
            &&& forall|i: int|
                2 <= i < order.len() ==> after[#[trigger] order[i]] == open[order[i]]
        }),
{
    law_address_goes_to_two(open, addr, order);
    let after = offered(open, addr, order, ANNOUNCE_FANOUT as nat);
    if order.len() > 0 {
        assert(after[order[0]] == open[order[0]].offered(addr));
    }
    if order.len() > 1 {
        assert(after[order[1]] == open[order[1]].offered(addr));
    }
    assert forall|i: int| 2 <= i < order.len() implies after[#[trigger] order[i]]
        == open[order[i]] by {
        assert(after[order[i]] == open[order[i]]);
    }
}

/// A step makes calls to the address manager only when a substream has been polled
/// that its peer had not closed: those that receiving what arrived makes.
pub proof fn law_calls_of_a_step(pre: DiscoveryState, turn: Turn)
    requires
        pre.steps(turn.event, turn.orders, turn.post, turn.action),
    ensures
        ({
            let calls = pre.step_calls(turn.event, turn.orders);
            match (pre.stage, turn.event) {
                (
                    Stage::Polling { key, .. },
                    PollEvent::Substream { timer, arrived, .. },
                ) => if pre.substreams[key].remote_closed {
                    calls.len() == 0
                } else {
                    calls == pre.substreams[key].calls_all(
                        messages_view(arrived@),
                        turn.orders.chance,
                    )
                },
                _ => calls.len() == 0,
            }
        }),
{
    if let (Stage::Polling { key, .. }, PollEvent::Substream { timer, arrived, .. }) = (
        pre.stage,
        turn.event,
    ) {
        lemma_timer_makes_no_calls(
            pre.substreams[key],
            timer,
            messages_view(arrived@),
            turn.orders.chance,
        );
    }
}

proof fn lemma_timer_makes_no_calls(
    state: SubstreamState,
    timer: TimerPoll,
    messages: Seq<MessageView>,
    chance: Chance,
)
    ensures
        state.timed(timer).calls_all(messages, chance) == state.calls_all(messages, chance),
        state.timed(timer).passed_on(messages, chance) == state.passed_on(messages, chance),
        state.timed(timer).absorbed_all(messages, chance) == state.absorbed_all(
            messages,
            chance,
        ).timed(timer),
    decreases messages.len(),
{
    if messages.len() > 0 {
        lemma_timer_makes_no_calls(state, timer, messages.drop_last(), chance);
    }
}

// ---------------------------------------------------------------------------
// What has happened on a substream since it was opened.
// ---------------------------------------------------------------------------

/// Whether the `i`-th event is what came of polling a substream.
pub open spec fn is_poll_of(turns: Seq<Turn>, i: int, key: SubstreamKey) -> bool {
    &&& 0 < i < turns.len()
    &&& turns[i - 1].action matches PollAction::PollSubstream { key: polled, .. } && polled == key
    &&& turns[i].event is Substream
}

/// Whether the `i`-th event reports that the peer has closed the stream of a
/// substream.
pub open spec fn reports_closed(turns: Seq<Turn>, i: int, key: SubstreamKey) -> bool {
    &&& is_poll_of(turns, i, key)
    &&& turns[i].event matches PollEvent::Substream { end, .. } && end == StreamEnd::Closed
}

/// Whether an event since a substream was opened has reported its stream as closed.
pub open spec fn closed_since_opened(turns: Seq<Turn>, key: SubstreamKey) -> bool {
    exists|i: int| #[trigger]
        reports_closed(turns, i, key) && forall|k: int|
            i < k < turns.len() ==> !opens(#[trigger] turns[k], key)
}

/// The messages that have been read from a substream since it was opened.
pub open spec fn heard(turns: Seq<Turn>, key: SubstreamKey) -> Seq<MessageView>
    decreases turns.len(),
{
    if turns.len() == 0 || opens(turns.last(), key) {
        Seq::empty()
    } else {
        heard(turns.drop_last(), key) + if turns.len() > 1 {
            match (turns[turns.len() - 2].action, turns.last().event) {
                (
                    PollAction::PollSubstream { key: polled, read },
                    PollEvent::Substream { arrived, .. },
                ) => if polled == key && read {
                    messages_view(arrived@)
                } else {
                    Seq::empty()
                },
                _ => Seq::empty(),
            }
        } else {
            Seq::empty()
        }
    }
}

/// Whether an open substream is what the events since it was opened say.
spec fn is_as_events_say(
    max_known: nat,
    turns: Seq<Turn>,
    key: SubstreamKey,
    value: SubstreamState,
) -> bool {
    &&& value.remote_addr == key.remote_addr
    &&& value.addr_known.max_known == max_known
    &&& value.remote_closed == closed_since_opened(turns, key)
    &&& value.received_get_nodes == holds_question(heard(turns, key))
    &&& value.received_nodes == exists|i: int|
        0 <= i < heard(turns, key).len() && is_good_answer(#[trigger] heard(turns, key)[i])
}

proof fn lemma_known_keeps_limit(
    state: SubstreamState,
    messages: Seq<MessageView>,
    chance: Chance,
)
    ensures
        state.absorbed_all(messages, chance).addr_known.max_known == state.addr_known.max_known,
    decreases messages.len(),
{
    if messages.len() > 0 {
        lemma_known_keeps_limit(state, messages.drop_last(), chance);
        let before = state.absorbed_all(messages.drop_last(), chance);
        if before.accepts(messages.last()) {
            lemma_inserting_keeps_limit(
                before.addr_known,
                all_addresses(messages.last()->Nodes_0.items),
            );
        }
    }
}

proof fn lemma_inserting_keeps_limit(known: KnownAddrs, more: Seq<AddrRaw>)
    ensures
        known.insert_all(more).max_known == known.max_known,
    decreases more.len(),
{
    if more.len() > 0 {
        lemma_inserting_keeps_limit(known, more.drop_last());
    }
}

/// Whether something leaves alone what the events on a substream decide.
spec fn is_quiet(deed: Deed) -> bool {
    !(deed is Received)
}

proof fn lemma_quiet_deeds(state: SubstreamState, deeds: Seq<Deed>)
    requires
        forall|i: int| 0 <= i < deeds.len() ==> is_quiet(#[trigger] deeds[i]),
    ensures
        ({
            let after = after_deeds(state, deeds);
            &&& after.remote_addr == state.remote_addr
            &&& after.addr_known == state.addr_known
            &&& after.remote_closed == state.remote_closed
            &&& after.received_get_nodes == state.received_get_nodes
            &&& after.received_nodes == state.received_nodes
        }),
    decreases deeds.len(),
{
    if deeds.len() > 0 {
        let fewer = deeds.drop_last();
        assert forall|i: int| 0 <= i < fewer.len() implies is_quiet(#[trigger] fewer[i]) by {
            assert(fewer[i] == deeds[i]);
        }
        lemma_quiet_deeds(state, fewer);
        assert(is_quiet(deeds[deeds.len() - 1]));
    }
}

/// What a step does to what events decide of a substream.
proof fn lemma_step_follows_event(pre: DiscoveryState, turn: Turn, key: SubstreamKey)
    requires
        pre.steps(turn.event, turn.orders, turn.post, turn.action),
        at_start(pre, turn).contains_key(key),
        turn.post.substreams.contains_key(key),
    ensures
        ({
            let start = at_start(pre, turn)[key];
            let after = turn.post.substreams[key];
            &&& after.remote_addr == start.remote_addr
            &&& after.addr_known.max_known == start.addr_known.max_known
            &&& match (pre.stage, turn.event) {
                (
                    Stage::Polling { key: polled, .. },
                    PollEvent::Substream { arrived, end, .. },
                ) => if polled == key && !start.remote_closed {
                    let said = messages_view(arrived@);
                    &&& after.remote_closed == (end == StreamEnd::Closed)
                    &&& after.received_get_nodes == (start.received_get_nodes || holds_question(
                        said,
                    ))
                    &&& after.received_nodes == (start.received_nodes || exists|i: int|
                        0 <= i < said.len() && is_good_answer(#[trigger] said[i]))
                } else {
                    &&& after.remote_closed == start.remote_closed
                    &&& after.received_get_nodes == start.received_get_nodes
                    &&& after.received_nodes == start.received_nodes
                },
                _ => {
                    &&& after.remote_closed == start.remote_closed
                    &&& after.received_get_nodes == start.received_get_nodes
                    &&& after.received_nodes == start.received_nodes
                },
            }
        }),
{
    let start = at_start(pre, turn)[key];
    let deeds = deeds_of(pre, turn, key);
    law_step_does_deeds(pre, turn, key);
    lemma_only_polling_receives(pre, turn, key);
    if let (
        Stage::Polling { key: polled, .. },
        PollEvent::Substream { timer, arrived, end },
    ) = (pre.stage, turn.event) {
        if polled == key {
            let said = messages_view(arrived@);
            let chance = turn.orders.chance;
            let timed = start.timed(timer);
            lemma_receiving_leaves_the_rest(timed, said, chance);
            lemma_known_keeps_limit(timed, said, chance);
            law_reading_to_the_end(timed, said, end, chance);
            law_first_good_answer_counts(timed, said, chance);
        } else {
            lemma_quiet_deeds(start, deeds);
        }
    } else {
        assert forall|i: int| 0 <= i < deeds.len() implies is_quiet(#[trigger] deeds[i]) by {}
        lemma_quiet_deeds(start, deeds);
    }
}

/// A step opens no substream but the one that was received.
pub proof fn law_step_opens_nothing_else(pre: DiscoveryState, turn: Turn)
    requires
        pre.wf(),
        pre.steps(turn.event, turn.orders, turn.post, turn.action),
    ensures
        turn.post.substreams.dom().subset_of(at_start(pre, turn).dom()),
{
    let post = turn.post;
    match (pre.stage, turn.event) {
        (Stage::Idle, PollEvent::Receiver(polled)) => {
            if polled !is Failed {
                lemma_going_on_polling(
                    pre.opened(polled),
                    turn.orders.polled,
                    Seq::empty(),
                    turn.orders,
                    post,
                    turn.action,
                );
            }
        },
        (Stage::Polling { key, rest, .. }, PollEvent::Substream { .. }) => {
            lemma_current_and_rest(pre, key, rest);
        },
        (Stage::Sending { key, rest, announce_addrs }, PollEvent::Send(event)) => {
            lemma_current_and_rest(pre, key, rest);
            if send_ends(event) {
                let value = pre.substreams[key];
                let after = pre.with(key, value.sending(event)).noted(
                    key,
                    send_fails(event),
                ).with(key, value.sending(event).announced());
                lemma_going_on_polling(
                    after,
                    rest,
                    if value.announce {
                        announce_addrs.push(value.remote_addr)
                    } else {
                        announce_addrs
                    },
                    turn.orders,
                    post,
                    turn.action,
                );
            }
        },
        (Stage::Telling { key, rest }, PollEvent::Send(event)) => {
            lemma_current_and_rest(pre, key, rest);
            if send_ends(event) {
                let after = pre.with(key, pre.substreams[key].sending(event)).noted(
                    key,
                    send_fails(event),
                );
                lemma_going_on_telling(after, rest, post, turn.action);
            }
        },
        _ => {},
    }
}

proof fn lemma_closed_reported_before(turns: Seq<Turn>, key: SubstreamKey)
    requires
        turns.len() > 0,
    ensures
        opens(turns.last(), key) ==> !closed_since_opened(turns, key),
        !opens(turns.last(), key) ==> (closed_since_opened(turns, key) <==> closed_since_opened(
            turns.drop_last(),
            key,
        ) || reports_closed(turns, turns.len() - 1, key)),
{
    let earlier = turns.drop_last();
    let n = turns.len() - 1;
    assert(turns[n] == turns.last());
    assert forall|i: int| i < n implies #[trigger] reports_closed(turns, i, key)
        == reports_closed(earlier, i, key) by {
        if 0 < i {
            assert(earlier[i] == turns[i] && earlier[i - 1] == turns[i - 1]);
        }
    }
    if opens(turns.last(), key) {
        if closed_since_opened(turns, key) {
            let i = choose|i: int| #[trigger]
                reports_closed(turns, i, key) && forall|k: int|
                    i < k < turns.len() ==> !opens(#[trigger] turns[k], key);
            assert(i == n);
            assert(false);
        }
    } else {
        if closed_since_opened(turns, key) {
            let i = choose|i: int| #[trigger]
                reports_closed(turns, i, key) && forall|k: int|
                    i < k < turns.len() ==> !opens(#[trigger] turns[k], key);
            if i < n {
                assert(reports_closed(earlier, i, key));
                assert forall|k: int| i < k < earlier.len() implies !opens(
                    #[trigger] earlier[k],
                    key,
                ) by {
                    assert(earlier[k] == turns[k]);
                }
            }
        }
        if closed_since_opened(earlier, key) {
            let i = choose|i: int| #[trigger]
                reports_closed(earlier, i, key) && forall|k: int|
                    i < k < earlier.len() ==> !opens(#[trigger] earlier[k], key);
            assert(reports_closed(turns, i, key));
            assert forall|k: int| i < k < turns.len() implies !opens(#[trigger] turns[k], key) by {
                if k < n {
                    assert(earlier[k] == turns[k]);
                }
            }
        }
        if reports_closed(turns, n, key) {
            assert(forall|k: int| n < k < turns.len() ==> !opens(#[trigger] turns[k], key));
        }
    }
}

proof fn lemma_good_answer_in_both(a: Seq<MessageView>, b: Seq<MessageView>)
    ensures
        (exists|i: int| 0 <= i < (a + b).len() && is_good_answer(#[trigger] (a + b)[i])) <==> (
        exists|i: int| 0 <= i < a.len() && is_good_answer(#[trigger] a[i])) || (exists|i: int|
            0 <= i < b.len() && is_good_answer(#[trigger] b[i])),
        holds_question(a + b) <==> holds_question(a) || holds_question(b),
{
    let both = a + b;
    if exists|i: int| 0 <= i < a.len() && is_good_answer(#[trigger] a[i]) {
        let i = choose|i: int| 0 <= i < a.len() && is_good_answer(#[trigger] a[i]);
        assert(is_good_answer(both[i]));
    }
    if exists|i: int| 0 <= i < b.len() && is_good_answer(#[trigger] b[i]) {
        let i = choose|i: int| 0 <= i < b.len() && is_good_answer(#[trigger] b[i]);
        assert(is_good_answer(both[a.len() + i]));
    }
    if exists|i: int| 0 <= i < both.len() && is_good_answer(#[trigger] both[i]) {
        let i = choose|i: int| 0 <= i < both.len() && is_good_answer(#[trigger] both[i]);
        if i < a.len() {
            assert(is_good_answer(a[i]));
        } else {
            assert(is_good_answer(b[i - a.len()]));
        }
    }
    if holds_question(a) {
        let i = choose|i: int| 0 <= i < a.len() && #[trigger] a[i] is GetNodes;
        assert(both[i] is GetNodes);
    }
    if holds_question(b) {
        let i = choose|i: int| 0 <= i < b.len() && #[trigger] b[i] is GetNodes;
        assert(both[a.len() + i] is GetNodes);
    }
    if holds_question(both) {
        let i = choose|i: int| 0 <= i < both.len() && #[trigger] both[i] is GetNodes;
        if i < a.len() {
            assert(a[i] is GetNodes);
        } else {
            assert(b[i - a.len()] is GetNodes);
        }
    }
}

/// Whether the action of a step polls a substream, and asks for it to be read unless
/// its peer had closed it.
proof fn lemma_polling_stage(pre: DiscoveryState, turn: Turn)
    requires
        pre.steps(turn.event, turn.orders, turn.post, turn.action),
    ensures
        turn.post.stage matches Stage::Polling { key, .. } ==> turn.action
            == (PollAction::PollSubstream { key, read: !turn.post.substreams[key].remote_closed }),
        turn.action is PollSubstream ==> turn.post.stage is Polling,
{
}

proof fn lemma_state_follows_events(max_known: nat, turns: Seq<Turn>, key: SubstreamKey)
    requires
        is_run(DiscoveryState::initial(max_known), turns),
        state_after(DiscoveryState::initial(max_known), turns).substreams.contains_key(key),
    ensures
        is_as_events_say(
            max_known,
            turns,
            key,
            state_after(DiscoveryState::initial(max_known), turns).substreams[key],
        ),
        state_after(DiscoveryState::initial(max_known), turns).max_known == max_known,
    decreases turns.len(),
{
    let start = DiscoveryState::initial(max_known);
    if turns.len() > 0 {
        let earlier = turns.drop_last();
        let mid = state_after(start, earlier);
        let turn = turns.last();
        law_start(max_known);
        law_every_state_is_well_formed(start, earlier);
        law_step_opens_nothing_else(mid, turn);
        assert(turn.post.substreams.dom().contains(key));
        assert(at_start(mid, turn).contains_key(key));
        lemma_step_follows_event(mid, turn, key);
        lemma_limit_never_changes(start, turns);
        lemma_limit_never_changes(start, earlier);
        lemma_closed_reported_before(turns, key);
        if opens(turn, key) {
            assert(heard(turns, key).len() == 0);
            assert(!holds_question(heard(turns, key)));
        } else {
            assert(mid.substreams.contains_key(key));
            lemma_state_follows_events(max_known, earlier, key);
            if earlier.len() > 0 {
                assert(earlier.last() == turns[turns.len() - 2]);
                assert(is_run(start, earlier));
                lemma_polling_stage(state_after(start, earlier.drop_last()), earlier.last());
                let more = match (earlier.last().action, turn.event) {
                    (
                        PollAction::PollSubstream { key: polled, read },
                        PollEvent::Substream { arrived, .. },
                    ) => if polled == key && read {
                        messages_view(arrived@)
                    } else {
                        Seq::empty()
                    },
                    _ => Seq::empty(),
                };
                assert(heard(turns, key) == heard(earlier, key) + more);
                lemma_good_answer_in_both(heard(earlier, key), more);
            } else {
                assert(heard(turns, key) =~= heard(earlier, key));
            }
        }
    }
}

proof fn lemma_limit_never_changes(pre: DiscoveryState, turns: Seq<Turn>)
    requires
        is_run(pre, turns),
    ensures
        state_after(pre, turns).max_known == pre.max_known,
    decreases turns.len(),
{
    if turns.len() > 0 {
        lemma_limit_never_changes(pre, turns.drop_last());
        law_only_the_receiver_fails(state_after(pre, turns.drop_last()), turns.last());
    }
}

/// Whenever a substream is polled it is to be read, unless an event since it was
/// opened reported its stream as closed: on whichever side it was opened, and in
/// particular when it is polled for the first time.
pub proof fn law_read_unless_closed(max_known: nat, turns: Seq<Turn>)
    requires
        is_run(DiscoveryState::initial(max_known), turns),
        turns.len() > 0,
    ensures
        turns.last().action matches PollAction::PollSubstream { key, read } ==> (read
            <==> !closed_since_opened(turns, key)),
{
    let start = DiscoveryState::initial(max_known);
    if let PollAction::PollSubstream { key, read } = turns.last().action {
        let now = turns.last().post;
        lemma_polling_stage(state_after(start, turns.drop_last()), turns.last());
        law_start(max_known);
        law_every_state_is_well_formed(start, turns);
        if let Stage::Polling { key: polled, rest, .. } = now.stage {
            lemma_current_and_rest(now, polled, rest);
            lemma_state_follows_events(max_known, turns, key);
        }
    }
}

/// An open substream talks to the peer that its key names, and remembers as many
/// addresses as it was told to at the start.
pub proof fn law_substream_is_that_of_its_key(max_known: nat, turns: Seq<Turn>, key: SubstreamKey)
    requires
        is_run(DiscoveryState::initial(max_known), turns),
        state_after(DiscoveryState::initial(max_known), turns).substreams.contains_key(key),
    ensures
        ({
            let value = state_after(DiscoveryState::initial(max_known), turns).substreams[key];
            &&& value.remote_addr == key.remote_addr
            &&& value.addr_known.max_known == max_known
        }),
{
    lemma_state_follows_events(max_known, turns, key);
}

/// On an open substream a question counts as asked if one was read since it was
/// opened, and as answered if a good answer was; and its stream counts as closed if it
/// was reported as closed.
pub proof fn law_substream_remembers_what_was_read(
    max_known: nat,
    turns: Seq<Turn>,
    key: SubstreamKey,
)
    requires
        is_run(DiscoveryState::initial(max_known), turns),
        state_after(DiscoveryState::initial(max_known), turns).substreams.contains_key(key),
    ensures
        ({
            let value = state_after(DiscoveryState::initial(max_known), turns).substreams[key];
            let said = heard(turns, key);
            &&& value.received_get_nodes <==> exists|i: int|
                0 <= i < said.len() && #[trigger] said[i] is GetNodes
            &&& value.received_nodes <==> exists|i: int|
                0 <= i < said.len() && is_good_answer(#[trigger] said[i])
            &&& value.remote_closed <==> closed_since_opened(turns, key)
        }),
{
    lemma_state_follows_events(max_known, turns, key);
}

/// The lists that polling a substream brings in are, whole and in their order, the
/// short announcements among the messages that arrived, and the first good answer
/// since the substream was opened. There are none where the substream was not to be
/// read, or its stream failed.
pub proof fn law_what_a_poll_brings_in(max_known: nat, turns: Seq<Turn>, key: SubstreamKey) -> (
    places: Seq<int>)
    requires
        is_run(DiscoveryState::initial(max_known), turns),
        is_poll_of(turns, turns.len() - 1, key),
    ensures
        ({
            let pre = state_after(DiscoveryState::initial(max_known), turns.drop_last());
            let lists = brought_in(pre, turns.last());
            let read = turns[turns.len() - 2].action->read;
            let said = heard(turns.drop_last(), key);
            match turns.last().event {
                PollEvent::Substream { arrived, end, .. } => if !read || end == StreamEnd::Failed {
                    lists.len() == 0
                } else {
                    let messages = messages_view(arrived@);
                    let passes = |i: int|
                        {
                            &&& messages[i] is Nodes
                            &&& if messages[i]->Nodes_0.announce {
                                messages[i]->Nodes_0.items.len() <= 10
                            } else {
                                &&& messages[i]->Nodes_0.items.len() <= 1000
                                &&& forall|j: int|
                                    0 <= j < said.len() ==> !is_good_answer(#[trigger] said[j])
                                &&& forall|j: int|
                                    0 <= j < i ==> !is_good_answer(#[trigger] messages[j])
                            }
                        };
                    &&& places.len() == lists.len()
                    &&& forall|k: int|
                        0 <= k < places.len() ==> {
                            &&& 0 <= #[trigger] places[k] < messages.len()
                            &&& passes(places[k])
                            &&& messages[places[k]] == MessageView::Nodes(lists[k])
                        }
                    &&& forall|k: int, l: int|
                        0 <= k < l < places.len() ==> #[trigger] places[k] < #[trigger] places[l]
                    &&& forall|i: int|
                        0 <= i < messages.len() && #[trigger] passes(i) ==> places.contains(i)
                },
                _ => false,
            }
        }),
{
    let start = DiscoveryState::initial(max_known);
    let earlier = turns.drop_last();
    let pre = state_after(start, earlier);
    let said = heard(earlier, key);
    assert(earlier.last() == turns[turns.len() - 2]);
    assert(turns.last() == turns[turns.len() - 1]);
    assert(is_run(start, earlier));
    lemma_polling_stage(state_after(start, earlier.drop_last()), earlier.last());
    law_start(max_known);
    law_every_state_is_well_formed(start, earlier);
    let value = pre.substreams[key];
    if let Stage::Polling { key: polled, rest, .. } = pre.stage {
        lemma_current_and_rest(pre, polled, rest);
    }
    lemma_state_follows_events(max_known, earlier, key);
    match turns.last().event {
        PollEvent::Substream { timer, arrived, end } => {
            let messages = messages_view(arrived@);
            let chance = turns.last().orders.chance;
            let timed = value.timed(timer);
            let places = law_lists_are_passed_on_whole(timed, messages, chance);
            let passes = |i: int|
                {
                    &&& messages[i] is Nodes
                    &&& if messages[i]->Nodes_0.announce {
                        messages[i]->Nodes_0.items.len() <= 10
                    } else {
                        &&& messages[i]->Nodes_0.items.len() <= 1000
                        &&& forall|j: int|
                            0 <= j < said.len() ==> !is_good_answer(#[trigger] said[j])
                        &&& forall|j: int| 0 <= j < i ==> !is_good_answer(#[trigger] messages[j])
                    }
                };
            assert forall|i: int| #[trigger]
                passes(i) == is_to_be_passed_on(timed, messages, i) by {
                assert(value.received_nodes == exists|j: int|
                    0 <= j < said.len() && is_good_answer(#[trigger] said[j]));
            }
            places
        },
        _ => Seq::empty(),
    }
}

/// From the start on, what the rounds hand over are the lists that were brought in,
/// the earliest first; none is left out, repeated or overtaken. A round that does not
/// hand one over leaves none waiting.
pub proof fn law_lists_brought_in_are_handed_over(max_known: nat, turns: Seq<Turn>)
    requires
        is_run(DiscoveryState::initial(max_known), turns),
    ensures
        all_handed_over(turns).is_prefix_of(
            all_brought_in(DiscoveryState::initial(max_known), turns),
        ),
        turns.len() > 0 && turns.last().action is NotReady ==> all_handed_over(turns)
            == all_brought_in(DiscoveryState::initial(max_known), turns),
{
    let start = DiscoveryState::initial(max_known);
    law_lists_are_passed_on_in_order(start, turns);
    let all = all_brought_in(start, turns);
    let given = all_handed_over(turns);
    let left = waiting(state_after(start, turns));
    assert(waiting(start) + all =~= all);
    assert(all == given + left);
    assert(given =~= all.take(given.len() as int));
    if turns.len() > 0 && turns.last().action is NotReady {
        assert(left.len() == 0) by {
            lemma_nothing_left(state_after(start, turns.drop_last()), turns.last());
        }
        assert(given + left =~= given);
    }
}

proof fn lemma_nothing_left(pre: DiscoveryState, turn: Turn)
    requires
        pre.steps(turn.event, turn.orders, turn.post, turn.action),
        turn.action is NotReady,
    ensures
        turn.post.pending_nodes.len() == 0,
{
}

/// As long as a substream stays open, what its stream was given and what waits is,
/// in its order, all that there is for its peer: what waited at first, and what has
/// joined since.
pub proof fn law_messages_reach_the_stream(pre: DiscoveryState, turns: Seq<Turn>, key: SubstreamKey)
    requires
        stays_open(pre, turns, key),
        streams_are_true(turns),
    ensures
        sent_on(turns, key) + state_after(pre, turns).substreams[key].pending_messages
            == messages_for_peer(at_start(pre, turns[0])[key], all_deeds(pre, turns, key)),
{
    law_steps_do_deeds(pre, turns, key);
    lemma_what_is_sent(pre, turns, key);
    law_messages_are_sent_in_order(at_start(pre, turns[0])[key], all_deeds(pre, turns, key));
}

// ---------------------------------------------------------------------------
// Everyone who is left sends once more.
// ---------------------------------------------------------------------------

/// The substream that a step begins to tell, if any: one that sends once more after
/// the failed ones were closed.
pub open spec fn begins_to_tell(pre: DiscoveryState, turn: Turn) -> Seq<SubstreamKey> {
    match turn.post.stage {
        Stage::Telling { .. } => if pre.stage is Telling && !(turn.event matches PollEvent::Send(
            event,
        ) && send_ends(event)) {
            Seq::empty()
        } else {
            about(turn.action)
        },
        _ => Seq::empty(),
    }
}

/// The substreams that some steps begin to tell, in that order.
pub open spec fn all_told(pre: DiscoveryState, turns: Seq<Turn>) -> Seq<SubstreamKey>
    decreases turns.len(),
{
    if turns.len() == 0 {
        Seq::empty()
    } else {
        all_told(pre, turns.drop_last()) + begins_to_tell(
            state_after(pre, turns.drop_last()),
            turns.last(),
        )
    }
}

/// How far telling has come: `order` is the order in which the substreams are told,
/// last to first.
spec fn telling_stands(
    pre: DiscoveryState,
    turns: Seq<Turn>,
    order: Seq<SubstreamKey>,
) -> bool {
    let now = state_after(pre, turns);
    let told = all_told(pre, turns);
    match now.stage {
        Stage::Telling { key, rest } => {
            &&& is_order(order, now.substreams.dom())
            &&& rest.len() < order.len()
            &&& rest == order.take(rest.len() as int)
            &&& key == order[rest.len() as int]
            &&& told.len() == order.len() - rest.len()
            &&& forall|i: int|
                0 <= i < told.len() ==> #[trigger] told[i] == order[order.len() - 1 - i]
        },
        Stage::Idle => {
            &&& is_order(order, now.substreams.dom())
            &&& told.len() == order.len()
            &&& forall|i: int|
                0 <= i < told.len() ==> #[trigger] told[i] == order[order.len() - 1 - i]
        },
        _ => told.len() == 0,
    }
}

proof fn lemma_telling_begins(
    state: DiscoveryState,
    announce_addrs: Seq<SocketAddr>,
    orders: Orders,
    post: DiscoveryState,
    action: PollAction,
)
    requires
        state.goes_on_polling(Seq::empty(), announce_addrs, orders, post, action),
    ensures
        is_order(orders.told, post.substreams.dom()),
        orders.told.len() == 0 ==> post.stage is Idle,
        orders.told.len() > 0 ==> {
            &&& post.stage == Stage::Telling {
                key: orders.told.last(),
                rest: orders.told.drop_last(),
            }
            &&& about(action) == seq![orders.told.last()]
        },
{
    lemma_going_on_polling(state, Seq::empty(), announce_addrs, orders, post, action);
    assert(state.swept().substreams.dom() =~= state.substreams.dom().difference(state.err_keys));
}

proof fn lemma_telling_so_far(pre: DiscoveryState, turns: Seq<Turn>) -> (order: Seq<SubstreamKey>)
    requires
        pre.wf(),
        is_within_round(pre, turns),
    ensures
        telling_stands(pre, turns, order),
    decreases turns.len(),
{
    let earlier = turns.drop_last();
    let mid = state_after(pre, earlier);
    let turn = turns.last();
    let post = turn.post;
    if turns.len() == 1 {
        assert(earlier =~= Seq::empty());
        reveal_with_fuel(all_told, 2);
        if let PollEvent::Receiver(polled) = turn.event {
            if turn.orders.polled.len() == 0 {
                assert(turn.orders.polled =~= Seq::empty());
                lemma_telling_begins(
                    pre.opened(polled),
                    Seq::empty(),
                    turn.orders,
                    post,
                    turn.action,
                );
                let order = turn.orders.told;
                if order.len() > 0 {
                    assert(order.drop_last() =~= order.take(order.len() - 1));
                }
            }
        }
        assert(all_told(pre, turns) =~= begins_to_tell(pre, turn));
        turn.orders.told
    } else {
        lemma_before_last_turn(pre, turns);
        let before = lemma_telling_so_far(pre, earlier);
        law_every_state_is_well_formed(pre, earlier);
        let told = all_told(pre, earlier);
        match (mid.stage, turn.event) {
            (Stage::Sending { key, rest, announce_addrs }, PollEvent::Send(event)) => {
                if send_ends(event) && rest.len() == 0 {
                    let value = mid.substreams[key];
                    let after = mid.with(key, value.sending(event)).noted(
                        key,
                        send_fails(event),
                    ).with(key, value.sending(event).announced());
                    assert(rest =~= Seq::empty());
                    lemma_telling_begins(
                        after,
                        if value.announce {
                            announce_addrs.push(value.remote_addr)
                        } else {
                            announce_addrs
                        },
                        turn.orders,
                        post,
                        turn.action,
                    );
                    let order = turn.orders.told;
                    if order.len() > 0 {
                        assert(order.drop_last() =~= order.take(order.len() - 1));
                    }
                    assert(all_told(pre, turns) =~= begins_to_tell(mid, turn));
                    order
                } else {
                    assert(all_told(pre, turns) =~= told);
                    before
                }
            },
            (Stage::Telling { key, rest }, PollEvent::Send(event)) => {
                lemma_current_and_rest(mid, key, rest);
                let after = mid.with(key, mid.substreams[key].sending(event)).noted(
                    key,
                    send_fails(event),
                );
                assert(after.substreams.dom() =~= mid.substreams.dom());
                if send_ends(event) {
                    lemma_going_on_telling(after, rest, post, turn.action);
                    if rest.len() > 0 {
                        assert(rest.drop_last() =~= before.take(rest.len() - 1));
                        assert(rest.last() == before[rest.len() - 1]);
                        assert(about(turn.action) =~= seq![rest.last()]);
                        assert(all_told(pre, turns) =~= told.push(rest.last()));
                    } else {
                        assert(all_told(pre, turns) =~= told);
                    }
                } else {
                    assert(all_told(pre, turns) =~= told);
                }
                before
            },
            _ => {
                assert(all_told(pre, turns) =~= told);
                before
            },
        }
    }
}

/// When a round is over, every substream that is still open has sent once more after
/// the failed ones were closed, and none twice.
pub proof fn law_everyone_left_is_told_once(pre: DiscoveryState, turns: Seq<Turn>)
    requires
        pre.wf(),
        is_within_round(pre, turns),
        state_after(pre, turns).stage is Idle,
    ensures
        all_told(pre, turns).no_duplicates(),
        forall|key: SubstreamKey| #[trigger]
            all_told(pre, turns).contains(key) <==> state_after(pre, turns).substreams.contains_key(
                key,
            ),
{
    let order = lemma_telling_so_far(pre, turns);
    let told = all_told(pre, turns);
    let n = order.len();
    assert forall|i: int, j: int| 0 <= i < n && 0 <= j < n && i != j implies told[i] != told[j] by {
        assert(order[n - 1 - i] != order[n - 1 - j]);
    }
    assert forall|key: SubstreamKey|
        told.to_set().contains(key) == #[trigger] order.to_set().contains(key) by {
        if order.contains(key) {
            let i = choose|i: int| 0 <= i < n && order[i] == key;
            assert(told[n - 1 - i] == key);
        }
        if told.contains(key) {
            let i = choose|i: int| 0 <= i < n && told[i] == key;
            assert(order[n - 1 - i] == key);
        }
    }
    assert forall|key: SubstreamKey| #[trigger]
        told.contains(key) <==> state_after(pre, turns).substreams.contains_key(key) by {
        assert(told.to_set().contains(key) == order.to_set().contains(key));
        assert(state_after(pre, turns).substreams.dom().contains(key)
            == order.to_set().contains(key));
    }
}

} // verus!
