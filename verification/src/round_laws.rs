//! What holds of every round of polling, and of rounds that follow each other.

use crate::addr::{AddrRaw, KnownAddrs, SocketAddr};
use crate::laws::{law_address_goes_to_two, law_spreading_only_adds, lemma_insert_keeps_wf};
use crate::message::{all_addresses, messages_view, MessageView, NodesView};
use crate::round::{
    all_wf, are_shuffles, is_order, lemma_current_and_rest, send_ends, send_fails, spread_out,
    DiscoveryState, Orders, PollAction, PollEvent, ReceiverPoll, Stage,
};
use crate::substream::{lemma_receiving_leaves_the_rest, Chance, SubstreamKey, SubstreamState};
use vstd::prelude::*;

verus! {

// ---------------------------------------------------------------------------
// Rounds.
// ---------------------------------------------------------------------------

/// One step: what came in, what was left to chance, and what came of it.
pub struct Turn {
    pub event: PollEvent,
    pub orders: Orders,
    pub post: DiscoveryState,
    pub action: PollAction,
}

/// Where some steps lead.
pub open spec fn state_after(pre: DiscoveryState, turns: Seq<Turn>) -> DiscoveryState {
    if turns.len() == 0 {
        pre
    } else {
        turns.last().post
    }
}

/// Whether `turns` are steps that follow each other.
pub open spec fn is_run(pre: DiscoveryState, turns: Seq<Turn>) -> bool
    decreases turns.len(),
{
    turns.len() > 0 ==> {
        let turn = turns.last();
        &&& is_run(pre, turns.drop_last())
        &&& state_after(pre, turns.drop_last()).steps(
            turn.event,
            turn.orders,
            turn.post,
            turn.action,
        )
    }
}

/// The lists that a step brings in.
pub open spec fn brought_in(pre: DiscoveryState, turn: Turn) -> Seq<NodesView> {
    match (pre.stage, turn.event) {
        (Stage::Polling { key, .. }, PollEvent::Substream { timer, arrived, end }) => {
            let value = pre.substreams[key].timed(timer);
            if value.remote_closed || end is Failed {
                Seq::empty()
            } else {
                value.passed_on(messages_view(arrived@), turn.orders.chance)
            }
        },
        _ => Seq::empty(),
    }
}

/// The lists that some steps bring in, in the order in which they come.
pub open spec fn all_brought_in(pre: DiscoveryState, turns: Seq<Turn>) -> Seq<NodesView>
    decreases turns.len(),
{
    if turns.len() == 0 {
        Seq::empty()
    } else {
        all_brought_in(pre, turns.drop_last()) + brought_in(
            state_after(pre, turns.drop_last()),
            turns.last(),
        )
    }
}

/// The list that an action passes on, if any.
pub open spec fn handed_over(action: PollAction) -> Seq<NodesView> {
    match action {
        PollAction::Ready(nodes) => seq![nodes@],
        _ => Seq::empty(),
    }
}

/// The lists that some steps pass on, in the order in which they go.
pub open spec fn all_handed_over(turns: Seq<Turn>) -> Seq<NodesView>
    decreases turns.len(),
{
    if turns.len() == 0 {
        Seq::empty()
    } else {
        all_handed_over(turns.drop_last()) + handed_over(turns.last().action)
    }
}

/// The lists that wait.
pub open spec fn waiting(state: DiscoveryState) -> Seq<NodesView> {
    state.pending_nodes.map_values(|entry: (SubstreamKey, NodesView)| entry.1)
}

proof fn lemma_step_keeps_lists(pre: DiscoveryState, turn: Turn)
    requires
        pre.steps(turn.event, turn.orders, turn.post, turn.action),
    ensures
        waiting(pre) + brought_in(pre, turn) == handed_over(turn.action) + waiting(turn.post),
{
    assert(waiting(pre) + brought_in(pre, turn) =~= handed_over(turn.action) + waiting(turn.post));
}

/// No list is lost, repeated or overtaken: the lists that are brought in are
/// passed on in the order in which they came, after those that waited before.
pub proof fn law_lists_are_passed_on_in_order(pre: DiscoveryState, turns: Seq<Turn>)
    requires
        is_run(pre, turns),
    ensures
        waiting(pre) + all_brought_in(pre, turns) == all_handed_over(turns) + waiting(
            state_after(pre, turns),
        ),
    decreases turns.len(),
{
    if turns.len() == 0 {
        assert(waiting(pre) + all_brought_in(pre, turns) =~= all_handed_over(turns) + waiting(pre));
    } else {
        law_lists_are_passed_on_in_order(pre, turns.drop_last());
        let mid = state_after(pre, turns.drop_last());
        lemma_step_keeps_lists(mid, turns.last());
        assert(waiting(pre) + all_brought_in(pre, turns) =~= (waiting(pre) + all_brought_in(
            pre,
            turns.drop_last(),
        )) + brought_in(mid, turns.last()));
        assert(all_handed_over(turns) + waiting(turns.last().post) =~= all_handed_over(
            turns.drop_last(),
        ) + (handed_over(turns.last().action) + waiting(turns.last().post)));
        assert((all_handed_over(turns.drop_last()) + waiting(mid)) + brought_in(mid, turns.last())
            =~= all_handed_over(turns.drop_last()) + (waiting(mid) + brought_in(
            mid,
            turns.last(),
        )));
    }
}

/// A round that ends passes a list on unless none waits.
pub proof fn law_round_ends_with_first_list(pre: DiscoveryState, turn: Turn)
    requires
        pre.steps(turn.event, turn.orders, turn.post, turn.action),
        turn.post.stage is Idle,
        turn.action !is Failed,
    ensures
        waiting(pre).len() == 0 ==> turn.action is NotReady,
        waiting(pre).len() > 0 ==> (turn.action matches PollAction::Ready(nodes) && nodes@
            == waiting(pre)[0]),
{
}

/// Between two rounds no address waits to be told.
pub proof fn law_nothing_to_tell_between_rounds(state: DiscoveryState)
    requires
        state.wf(),
        state.stage is Idle,
    ensures
        forall|key: SubstreamKey| #[trigger]
            state.substreams.contains_key(key) ==> state.substreams[key].announce_addrs.len() == 0,
{
}

/// The substream that an action has polled, if any.
pub open spec fn polls(action: PollAction) -> Seq<SubstreamKey> {
    match action {
        PollAction::PollSubstream { key, .. } => seq![key],
        _ => Seq::empty(),
    }
}

/// The substreams that some steps have polled, in that order.
pub open spec fn all_polled(turns: Seq<Turn>) -> Seq<SubstreamKey>
    decreases turns.len(),
{
    if turns.len() == 0 {
        Seq::empty()
    } else {
        all_polled(turns.drop_last()) + polls(turns.last().action)
    }
}

/// Whether a step, in which the substream `key` had its turn, showed that the
/// substream has failed.
pub open spec fn shows_failure(pre: DiscoveryState, event: PollEvent, key: SubstreamKey) -> bool {
    match event {
        PollEvent::Substream { timer, end, .. } => timer is Failed || (end is Failed
            && !pre.substreams[key].remote_closed),
        PollEvent::Send(event) => send_fails(event),
        PollEvent::Receiver(_) => false,
    }
}

/// The substream that a step showed to have failed before the round came to
/// closing substreams.
pub open spec fn failed_in_time(pre: DiscoveryState, event: PollEvent) -> Set<SubstreamKey> {
    match pre.stage {
        Stage::Polling { key, .. } | Stage::Sending { key, .. } => if shows_failure(
            pre,
            event,
            key,
        ) {
            set![key]
        } else {
            Set::empty()
        },
        _ => Set::empty(),
    }
}

/// The substream that a step showed to have failed after the round came to
/// closing substreams.
pub open spec fn failed_late(pre: DiscoveryState, event: PollEvent) -> Set<SubstreamKey> {
    match pre.stage {
        Stage::Telling { key, .. } => if shows_failure(pre, event, key) {
            set![key]
        } else {
            Set::empty()
        },
        _ => Set::empty(),
    }
}

/// The substreams that some steps showed to have failed in time to be closed.
pub open spec fn all_failed_in_time(pre: DiscoveryState, turns: Seq<Turn>) -> Set<SubstreamKey>
    decreases turns.len(),
{
    if turns.len() == 0 {
        Set::empty()
    } else {
        all_failed_in_time(pre, turns.drop_last()).union(
            failed_in_time(state_after(pre, turns.drop_last()), turns.last().event),
        )
    }
}

/// The substreams that some steps showed to have failed too late to be closed.
pub open spec fn all_failed_late(pre: DiscoveryState, turns: Seq<Turn>) -> Set<SubstreamKey>
    decreases turns.len(),
{
    if turns.len() == 0 {
        Set::empty()
    } else {
        all_failed_late(pre, turns.drop_last()).union(
            failed_late(state_after(pre, turns.drop_last()), turns.last().event),
        )
    }
}

/// Whether `turns` are the first steps of one round, or all of them, which was not
/// broken off for want of new substreams.
pub open spec fn is_within_round(pre: DiscoveryState, turns: Seq<Turn>) -> bool {
    &&& pre.stage is Idle
    &&& is_run(pre, turns)
    &&& turns.len() > 0
    &&& turns[0].action !is Failed
    &&& forall|i: int|
        0 <= i < turns.len() - 1 ==> (#[trigger] turns[i]).post.stage !is Idle
}

/// The substreams that take part in a round: those that were open, and the one
/// that was opened at its start.
pub open spec fn taking_part(pre: DiscoveryState, turns: Seq<Turn>) -> Set<SubstreamKey> {
    match turns[0].event {
        PollEvent::Receiver(ReceiverPoll::Substream(substream)) => pre.substreams.dom().insert(
            SubstreamKey {
                remote_addr: substream.remote_addr,
                direction: substream.direction,
                substream_id: substream.stream_id,
            },
        ),
        _ => pre.substreams.dom(),
    }
}

/// The substreams that a round closes: those that had failed in time, and those
/// that had failed too late for the round before.
pub open spec fn closed(pre: DiscoveryState, turns: Seq<Turn>) -> Set<SubstreamKey> {
    pre.err_keys.union(all_failed_in_time(pre, turns))
}

/// The substream that has its turn.
pub open spec fn current(state: DiscoveryState) -> Seq<SubstreamKey> {
    match state.stage {
        Stage::Polling { key, .. }
        | Stage::Sending { key, .. }
        | Stage::Telling { key, .. } => seq![key],
        Stage::Idle => Seq::empty(),
    }
}

/// Whether the substreams that are still to be told, and the current one, are open.
pub open spec fn telling_open(state: DiscoveryState) -> bool {
    match state.stage {
        Stage::Telling { key, rest } => {
            &&& state.substreams.contains_key(key)
            &&& forall|i: int|
                0 <= i < rest.len() ==> state.substreams.contains_key(#[trigger] rest[i])
        },
        Stage::Idle => true,
        _ => false,
    }
}

/// How a round stands while substreams are polled, with `rest` still to come.
spec fn first_half(
    pre: DiscoveryState,
    turns: Seq<Turn>,
    rest: Seq<SubstreamKey>,
) -> bool {
    let order = turns[0].orders.polled;
    let now = state_after(pre, turns);
    let polled = all_polled(turns);
    &&& is_order(order, taking_part(pre, turns))
    &&& rest.len() < order.len()
    &&& rest == order.take(rest.len() as int)
    &&& current(now) == seq![order[rest.len() as int]]
    &&& polled.len() == order.len() - rest.len()
    &&& forall|i: int|
        0 <= i < polled.len() ==> #[trigger] polled[i] == order[order.len() - 1 - i]
    &&& now.substreams.dom() == taking_part(pre, turns)
    &&& now.err_keys == closed(pre, turns)
    &&& all_failed_late(pre, turns) == Set::<SubstreamKey>::empty()
}

/// How a round stands once the failed substreams have been closed.
spec fn second_half(pre: DiscoveryState, turns: Seq<Turn>) -> bool {
    let order = turns[0].orders.polled;
    let now = state_after(pre, turns);
    let polled = all_polled(turns);
    &&& is_order(order, taking_part(pre, turns))
    &&& polled.len() == order.len()
    &&& forall|i: int|
        0 <= i < polled.len() ==> #[trigger] polled[i] == order[order.len() - 1 - i]
    &&& now.substreams.dom() == taking_part(pre, turns).difference(closed(pre, turns))
    &&& now.err_keys == all_failed_late(pre, turns)
    &&& telling_open(now)
}

/// How a round stands.
spec fn half_way(pre: DiscoveryState, turns: Seq<Turn>) -> bool {
    match state_after(pre, turns).stage {
        Stage::Polling { rest, .. } | Stage::Sending { rest, .. } => first_half(pre, turns, rest),
        _ => second_half(pre, turns),
    }
}

pub(crate) proof fn lemma_spread_keeps_dom(
    open: Map<SubstreamKey, SubstreamState>,
    addrs: Seq<SocketAddr>,
    shuffles: Seq<Seq<SubstreamKey>>,
)
    requires
        are_shuffles(shuffles, addrs.len(), open.dom()),
    ensures
        spread_out(open, addrs, shuffles).dom() == open.dom(),
    decreases addrs.len(),
{
    if addrs.len() > 0 {
        assert(are_shuffles(shuffles.drop_last(), addrs.drop_last().len(), open.dom())) by {
            assert forall|i: int| 0 <= i < shuffles.drop_last().len() implies is_order(
                #[trigger] shuffles.drop_last()[i],
                open.dom(),
            ) by {
                assert(is_order(shuffles[i], open.dom()));
            }
        }
        lemma_spread_keeps_dom(open, addrs.drop_last(), shuffles.drop_last());
        assert(is_order(shuffles[shuffles.len() - 1], open.dom()));
        law_address_goes_to_two(
            spread_out(open, addrs.drop_last(), shuffles.drop_last()),
            addrs.last(),
            shuffles.last(),
        );
    }
}

pub(crate) proof fn lemma_going_on_telling(
    state: DiscoveryState,
    rest: Seq<SubstreamKey>,
    post: DiscoveryState,
    action: PollAction,
)
    requires
        state.goes_on_telling(rest, post, action),
        forall|i: int| 0 <= i < rest.len() ==> state.substreams.contains_key(#[trigger] rest[i]),
    ensures
        post.substreams.dom() == state.substreams.dom(),
        post.err_keys == state.err_keys,
        telling_open(post),
        polls(action) == Seq::<SubstreamKey>::empty(),
{
    if rest.len() > 0 {
        assert(state.substreams.contains_key(rest[rest.len() - 1]));
        assert(post.substreams.dom() =~= state.substreams.dom());
    }
}

pub(crate) proof fn lemma_going_on_polling(
    state: DiscoveryState,
    rest: Seq<SubstreamKey>,
    announce_addrs: Seq<SocketAddr>,
    orders: Orders,
    post: DiscoveryState,
    action: PollAction,
)
    requires
        state.goes_on_polling(rest, announce_addrs, orders, post, action),
    ensures
        rest.len() > 0 ==> {
            &&& post.stage == Stage::Polling {
                key: rest.last(),
                rest: rest.drop_last(),
                announce_addrs,
            }
            &&& post.substreams == state.substreams
            &&& post.err_keys == state.err_keys
            &&& polls(action) == seq![rest.last()]
        },
        rest.len() == 0 ==> {
            &&& post.substreams.dom() == state.substreams.dom().difference(state.err_keys)
            &&& post.err_keys == Set::<SubstreamKey>::empty()
            &&& telling_open(post)
            &&& polls(action) == Seq::<SubstreamKey>::empty()
        },
{
    if rest.len() == 0 {
        let swept = state.swept();
        assert(swept.substreams.dom() =~= state.substreams.dom().difference(state.err_keys));
        lemma_spread_keeps_dom(swept.substreams, announce_addrs, orders.shuffles);
        let told = swept.spread(announce_addrs, orders.shuffles);
        assert forall|i: int| 0 <= i < orders.told.len() implies told.substreams.contains_key(
            #[trigger] orders.told[i],
        ) by {
            assert(orders.told.to_set().contains(orders.told[i]));
        }
        lemma_going_on_telling(told, orders.told, post, action);
    }
}

/// Without its last step, a round of more than one step is still under way.
pub(crate) proof fn lemma_before_last_turn(pre: DiscoveryState, turns: Seq<Turn>)
    requires
        is_within_round(pre, turns),
        turns.len() > 1,
    ensures
        is_within_round(pre, turns.drop_last()),
        turns.drop_last()[0] == turns[0],
        state_after(pre, turns.drop_last()).stage !is Idle,
{
    let earlier = turns.drop_last();
    assert forall|i: int|
        0 <= i < earlier.len() - 1 implies (#[trigger] earlier[i]).post.stage !is Idle by {
        assert(earlier[i] == turns[i]);
    }
    assert(earlier.last() == turns[turns.len() - 2]);
}

proof fn lemma_round_so_far(pre: DiscoveryState, turns: Seq<Turn>)
    requires
        is_within_round(pre, turns),
    ensures
        half_way(pre, turns),
    decreases turns.len(),
{
    let earlier = turns.drop_last();
    let mid = state_after(pre, earlier);
    let turn = turns.last();
    let post = turn.post;
    if turns.len() == 1 {
        assert(earlier =~= Seq::empty());
        reveal_with_fuel(all_polled, 2);
        reveal_with_fuel(all_failed_in_time, 2);
        reveal_with_fuel(all_failed_late, 2);
        if let PollEvent::Receiver(polled) = turn.event {
            let order = turn.orders.polled;
            lemma_going_on_polling(
                pre.opened(polled),
                order,
                Seq::empty(),
                turn.orders,
                post,
                turn.action,
            );
            assert(all_polled(turns) =~= polls(turn.action));
            assert(closed(pre, turns) =~= pre.err_keys);
            assert(all_failed_late(pre, turns) =~= Set::empty());
            assert(order.drop_last() =~= order.take(order.len() - 1));
        }
    } else {
        lemma_before_last_turn(pre, turns);
        lemma_round_so_far(pre, earlier);
        let order = turns[0].orders.polled;
        assert forall|i: int| 0 <= i < order.len() implies taking_part(pre, turns).contains(
            #[trigger] order[i],
        ) by {
            assert(order.to_set().contains(order[i]));
        }
        match (mid.stage, turn.event) {
            (Stage::Polling { key, .. }, PollEvent::Substream { .. }) => {
                assert(current(mid)[0] == key);
                assert(post.substreams.dom() =~= mid.substreams.dom());
                assert(all_polled(turns) =~= all_polled(earlier));
                assert(post.err_keys =~= closed(pre, turns));
                assert(all_failed_late(pre, turns) =~= Set::empty());
                assert(current(post) =~= current(mid));
            },
            (Stage::Sending { key, rest, announce_addrs }, PollEvent::Send(event)) => {
                assert(current(mid)[0] == key);
                let value = mid.substreams[key];
                let sent = mid.with(key, value.sending(event)).noted(key, send_fails(event));
                let after = if send_ends(event) {
                    sent.with(key, value.sending(event).announced())
                } else {
                    sent
                };
                assert(after.substreams.dom() =~= mid.substreams.dom());
                assert(after.err_keys =~= closed(pre, turns));
                assert(all_failed_late(pre, turns) =~= Set::empty());
                if send_ends(event) {
                    let addrs = if value.announce {
                        announce_addrs.push(value.remote_addr)
                    } else {
                        announce_addrs
                    };
                    lemma_going_on_polling(after, rest, addrs, turn.orders, post, turn.action);
                    if rest.len() > 0 {
                        assert(rest.drop_last() =~= order.take(rest.len() - 1));
                        assert(rest.last() == order[rest.len() - 1]);
                    } else {
                        assert(all_polled(turns) =~= all_polled(earlier));
                    }
                } else {
                    assert(all_polled(turns) =~= all_polled(earlier));
                    assert(current(post) =~= current(mid));
                }
            },
            (Stage::Telling { key, rest }, PollEvent::Send(event)) => {
                let value = mid.substreams[key];
                let after = mid.with(key, value.sending(event)).noted(key, send_fails(event));
                assert(after.substreams.dom() =~= mid.substreams.dom());
                assert(closed(pre, turns) =~= closed(pre, earlier));
                assert(after.err_keys =~= all_failed_late(pre, turns));
                if send_ends(event) {
                    lemma_going_on_telling(after, rest, post, turn.action);
                }
                assert(all_polled(turns) =~= all_polled(earlier));
            },
            _ => {},
        }
    }
}

/// In a round, every substream that takes part is polled, and none twice.
pub proof fn law_everyone_is_polled_once(pre: DiscoveryState, turns: Seq<Turn>)
    requires
        is_within_round(pre, turns),
        state_after(pre, turns).stage is Idle,
    ensures
        is_order(all_polled(turns), taking_part(pre, turns)),
        all_polled(turns).no_duplicates(),
        forall|key: SubstreamKey| #[trigger]
            all_polled(turns).contains(key) <==> taking_part(pre, turns).contains(key),
{
    lemma_round_so_far(pre, turns);
    let order = turns[0].orders.polled;
    let polled = all_polled(turns);
    let n = order.len();
    assert forall|i: int, j: int|
        0 <= i < n && 0 <= j < n && i != j implies polled[i] != polled[j] by {
        assert(order[n - 1 - i] != order[n - 1 - j]);
    }
    assert forall|key: SubstreamKey|
        polled.to_set().contains(key) == #[trigger] order.to_set().contains(key) by {
        if order.contains(key) {
            let i = choose|i: int| 0 <= i < n && order[i] == key;
            assert(polled[n - 1 - i] == key);
        }
        if polled.contains(key) {
            let i = choose|i: int| 0 <= i < n && polled[i] == key;
            assert(order[n - 1 - i] == key);
        }
    }
    assert(polled.to_set() =~= order.to_set());
    assert forall|key: SubstreamKey| #[trigger]
        polled.contains(key) <==> taking_part(pre, turns).contains(key) by {
        assert(polled.to_set().contains(key) == taking_part(pre, turns).contains(key));
    }
}

/// When a round is over, the substreams that had failed in time are closed, those
/// that failed too late are down for the next round, and all others are open.
pub proof fn law_round_closes_what_failed(pre: DiscoveryState, turns: Seq<Turn>)
    requires
        is_within_round(pre, turns),
        state_after(pre, turns).stage is Idle,
    ensures
        state_after(pre, turns).substreams.dom() == taking_part(pre, turns).difference(
            closed(pre, turns),
        ),
        state_after(pre, turns).err_keys == all_failed_late(pre, turns),
{
    lemma_round_so_far(pre, turns);
}

// ---------------------------------------------------------------------------
// Every state is well-formed.
// ---------------------------------------------------------------------------

proof fn lemma_insert_all_keeps_wf(known: KnownAddrs, more: Seq<AddrRaw>)
    requires
        known.wf(),
    ensures
        known.insert_all(more).wf(),
    decreases more.len(),
{
    if more.len() > 0 {
        lemma_insert_all_keeps_wf(known, more.drop_last());
        lemma_insert_keeps_wf(known.insert_all(more.drop_last()), more.last());
    }
}

pub(crate) proof fn lemma_receiving_keeps_wf(
    state: SubstreamState,
    messages: Seq<MessageView>,
    chance: Chance,
)
    requires
        state.wf(),
    ensures
        state.absorbed_all(messages, chance).wf(),
    decreases messages.len(),
{
    if messages.len() > 0 {
        let before = state.absorbed_all(messages.drop_last(), chance);
        lemma_receiving_keeps_wf(state, messages.drop_last(), chance);
        if before.accepts(messages.last()) {
            lemma_insert_all_keeps_wf(
                before.addr_known,
                all_addresses(messages.last()->Nodes_0.items),
            );
        }
    }
}

/// Whether no peer's address waits to be taken up.
spec fn none_due(open: Map<SubstreamKey, SubstreamState>) -> bool {
    forall|key: SubstreamKey| #[trigger] open.contains_key(key) ==> !open[key].announce
}

proof fn lemma_telling_keeps_wf(
    state: DiscoveryState,
    rest: Seq<SubstreamKey>,
    post: DiscoveryState,
    action: PollAction,
)
    requires
        state.goes_on_telling(rest, post, action),
        all_wf(state.substreams),
        none_due(state.substreams),
        state.err_keys.subset_of(state.substreams.dom()),
        rest.no_duplicates(),
        forall|i: int| 0 <= i < rest.len() ==> state.substreams.contains_key(#[trigger] rest[i]),
        forall|key: SubstreamKey|
            #[trigger] state.substreams.contains_key(key) && !rest.contains(key)
                ==> state.substreams[key].announce_addrs.len() == 0,
    ensures
        post.wf(),
{
    if rest.len() > 0 {
        assert(rest[rest.len() - 1] == rest.last());
        assert(post.to_come() =~= rest);
        let left = rest.drop_last();
        assert forall|key: SubstreamKey|
            #[trigger] post.substreams.contains_key(key) && !left.contains(key)
                implies post.substreams[key].announce_addrs.len() == 0 by {
            if key != rest.last() && rest.contains(key) {
                let i = choose|i: int| 0 <= i < rest.len() && rest[i] == key;
                assert(left[i] == key);
            }
        }
    }
}

proof fn lemma_polling_keeps_wf(
    state: DiscoveryState,
    rest: Seq<SubstreamKey>,
    announce_addrs: Seq<SocketAddr>,
    orders: Orders,
    post: DiscoveryState,
    action: PollAction,
)
    requires
        state.goes_on_polling(rest, announce_addrs, orders, post, action),
        state.at(Stage::Idle).wf(),
        rest.no_duplicates(),
        forall|i: int| 0 <= i < rest.len() ==> state.substreams.contains_key(#[trigger] rest[i]),
    ensures
        post.wf(),
{
    let idle = state.at(Stage::Idle);
    assert forall|key: SubstreamKey| #[trigger] state.substreams.contains_key(key) implies {
        &&& state.substreams[key].wf()
        &&& state.substreams[key].announce_addrs.len() == 0
        &&& !state.substreams[key].announce
    } by {
        assert(idle.substreams.contains_key(key));
        assert(!idle.to_be_told().contains(key));
    }
    if rest.len() == 0 {
        let swept = state.swept();
        law_spreading_only_adds(swept.substreams, announce_addrs, orders.shuffles);
        let told = swept.spread(announce_addrs, orders.shuffles);
        assert forall|i: int| 0 <= i < orders.told.len() implies told.substreams.contains_key(
            #[trigger] orders.told[i],
        ) by {
            assert(orders.told.to_set().contains(orders.told[i]));
        }
        assert forall|key: SubstreamKey| #[trigger]
            told.substreams.contains_key(key) implies orders.told.contains(key) by {
            assert(orders.told.to_set().contains(key));
        }
        assert forall|key: SubstreamKey| #[trigger]
            told.substreams.contains_key(key) implies !told.substreams[key].announce by {
            assert(swept.substreams.contains_key(key));
        }
        lemma_telling_keeps_wf(told, orders.told, post, action);
    } else {
        assert(post.to_come() =~= rest);
    }
}

proof fn lemma_step_keeps_wf(pre: DiscoveryState, turn: Turn)
    requires
        pre.wf(),
        pre.steps(turn.event, turn.orders, turn.post, turn.action),
    ensures
        turn.post.wf(),
{
    let post = turn.post;
    match (pre.stage, turn.event) {
        (Stage::Idle, PollEvent::Receiver(polled)) => {
            if polled !is Failed {
                let opened = pre.opened(polled);
                let order = turn.orders.polled;
                assert forall|i: int| 0 <= i < order.len() implies opened.substreams.contains_key(
                    #[trigger] order[i],
                ) by {
                    assert(order.to_set().contains(order[i]));
                }
                assert(opened.at(Stage::Idle).wf());
                lemma_polling_keeps_wf(
                    opened,
                    order,
                    Seq::empty(),
                    turn.orders,
                    post,
                    turn.action,
                );
            }
        },
        (
            Stage::Polling { key, rest, announce_addrs },
            PollEvent::Substream { timer, arrived, end },
        ) => {
            lemma_current_and_rest(pre, key, rest);
            let said = messages_view(arrived@);
            let value = pre.substreams[key].timed(timer);
            lemma_receiving_keeps_wf(value, said, turn.orders.chance);
            lemma_receiving_leaves_the_rest(value, said, turn.orders.chance);
            assert(post.to_come() =~= pre.to_come());
        },
        (Stage::Sending { key, rest, announce_addrs }, PollEvent::Send(event)) => {
            lemma_current_and_rest(pre, key, rest);
            let value = pre.substreams[key];
            let sent = pre.with(key, value.sending(event)).noted(key, send_fails(event));
            if send_ends(event) {
                let after = sent.with(key, value.sending(event).announced());
                assert(after.at(Stage::Idle).wf());
                lemma_polling_keeps_wf(
                    after,
                    rest,
                    if value.announce {
                        announce_addrs.push(value.remote_addr)
                    } else {
                        announce_addrs
                    },
                    turn.orders,
                    post,
                    turn.action,
                );
            } else {
                assert(post.to_come() =~= pre.to_come());
            }
        },
        (Stage::Telling { key, rest }, PollEvent::Send(event)) => {
            lemma_current_and_rest(pre, key, rest);
            let value = pre.substreams[key];
            let after = pre.with(key, value.sending(event)).noted(key, send_fails(event));
            if send_ends(event) {
                lemma_telling_keeps_wf(after, rest, post, turn.action);
            } else {
                assert(post.to_come() =~= pre.to_come());
            }
        },
        _ => {},
    }
}

/// Every state that steps lead to is well-formed.
pub proof fn law_every_state_is_well_formed(pre: DiscoveryState, turns: Seq<Turn>)
    requires
        pre.wf(),
        is_run(pre, turns),
    ensures
        state_after(pre, turns).wf(),
    decreases turns.len(),
{
    if turns.len() > 0 {
        law_every_state_is_well_formed(pre, turns.drop_last());
        lemma_step_keeps_wf(state_after(pre, turns.drop_last()), turns.last());
    }
}

// ---------------------------------------------------------------------------
// One announcement each time that a timer fires.
// ---------------------------------------------------------------------------

/// A substream, and where its peer is.
pub type Origin = (SubstreamKey, SocketAddr);

/// The substream whose timer fired in a step, if any did.
pub open spec fn fired(pre: DiscoveryState, turn: Turn) -> Seq<Origin> {
    match (pre.stage, turn.event) {
        (Stage::Polling { key, .. }, PollEvent::Substream { timer, .. }) => if timer is Fired {
            seq![(key, pre.substreams[key].remote_addr)]
        } else {
            Seq::empty()
        },
        _ => Seq::empty(),
    }
}

/// The substreams whose timers fired in some steps, once for each time.
pub open spec fn all_fired(pre: DiscoveryState, turns: Seq<Turn>) -> Seq<Origin>
    decreases turns.len(),
{
    if turns.len() == 0 {
        Seq::empty()
    } else {
        all_fired(pre, turns.drop_last()) + fired(
            state_after(pre, turns.drop_last()),
            turns.last(),
        )
    }
}

/// The substream whose peer's address is taken up in a step, if any is.
pub open spec fn taken_up(pre: DiscoveryState, turn: Turn) -> Seq<Origin> {
    match (pre.stage, turn.event) {
        (Stage::Sending { key, .. }, PollEvent::Send(event)) => if send_ends(event)
            && pre.substreams[key].announce {
            seq![(key, pre.substreams[key].remote_addr)]
        } else {
            Seq::empty()
        },
        _ => Seq::empty(),
    }
}

/// The substreams whose peers' addresses are taken up in some steps, once for each
/// time.
pub open spec fn all_taken_up(pre: DiscoveryState, turns: Seq<Turn>) -> Seq<Origin>
    decreases turns.len(),
{
    if turns.len() == 0 {
        Seq::empty()
    } else {
        all_taken_up(pre, turns.drop_last()) + taken_up(
            state_after(pre, turns.drop_last()),
            turns.last(),
        )
    }
}

/// The substream whose peer's address waits to be taken up, if any does.
pub open spec fn due(state: DiscoveryState) -> Seq<Origin> {
    match state.stage {
        Stage::Sending { key, .. } => if state.substreams[key].announce {
            seq![(key, state.substreams[key].remote_addr)]
        } else {
            Seq::empty()
        },
        _ => Seq::empty(),
    }
}

proof fn lemma_step_takes_up_what_fired(pre: DiscoveryState, turn: Turn)
    requires
        pre.wf(),
        pre.steps(turn.event, turn.orders, turn.post, turn.action),
    ensures
        due(pre) + fired(pre, turn) == taken_up(pre, turn) + due(turn.post),
{
    if let (Stage::Polling { key, rest, .. }, PollEvent::Substream { timer, arrived, .. }) = (
        pre.stage,
        turn.event,
    ) {
        lemma_current_and_rest(pre, key, rest);
        lemma_receiving_leaves_the_rest(
            pre.substreams[key].timed(timer),
            messages_view(arrived@),
            turn.orders.chance,
        );
    }
    assert(due(pre) + fired(pre, turn) =~= taken_up(pre, turn) + due(turn.post));
}

/// Each time that the timer of a substream fires, its peer's address is taken up
/// once, and at no other time: none is lost, repeated or overtaken.
pub proof fn law_each_firing_is_taken_up_once(pre: DiscoveryState, turns: Seq<Turn>)
    requires
        pre.wf(),
        is_run(pre, turns),
    ensures
        due(pre) + all_fired(pre, turns) == all_taken_up(pre, turns) + due(
            state_after(pre, turns),
        ),
    decreases turns.len(),
{
    if turns.len() == 0 {
        assert(due(pre) + all_fired(pre, turns) =~= all_taken_up(pre, turns) + due(pre));
    } else {
        let earlier = turns.drop_last();
        let mid = state_after(pre, earlier);
        let turn = turns.last();
        law_each_firing_is_taken_up_once(pre, earlier);
        law_every_state_is_well_formed(pre, earlier);
        lemma_step_takes_up_what_fired(mid, turn);
        assert(due(pre) + all_fired(pre, turns) =~= (due(pre) + all_fired(pre, earlier)) + fired(
            mid,
            turn,
        ));
        assert((all_taken_up(pre, earlier) + due(mid)) + fired(mid, turn) =~= all_taken_up(
            pre,
            earlier,
        ) + (due(mid) + fired(mid, turn)));
        assert(all_taken_up(pre, turns) + due(turn.post) =~= all_taken_up(pre, earlier) + (taken_up(
            mid,
            turn,
        ) + due(turn.post)));
    }
}

/// How often a substream occurs in `origins`.
pub open spec fn times(origins: Seq<Origin>, key: SubstreamKey) -> nat
    decreases origins.len(),
{
    if origins.len() == 0 {
        0
    } else {
        times(origins.drop_last(), key) + if origins.last().0 == key {
            1nat
        } else {
            0nat
        }
    }
}

proof fn lemma_times_add_up(a: Seq<Origin>, b: Seq<Origin>, key: SubstreamKey)
    ensures
        times(a + b, key) == times(a, key) + times(b, key),
    decreases b.len(),
{
    if b.len() == 0 {
        assert(a + b =~= a);
    } else {
        assert((a + b).drop_last() =~= a + b.drop_last());
        lemma_times_add_up(a, b.drop_last(), key);
    }
}

/// From between two rounds on, the address of the peer on a substream is taken up
/// at most as often as the substream's timer fired; and just as often once no round
/// is under way.
pub proof fn law_announced_no_more_often_than_fired(
    pre: DiscoveryState,
    turns: Seq<Turn>,
    key: SubstreamKey,
)
    requires
        pre.wf(),
        pre.stage is Idle,
        is_run(pre, turns),
    ensures
        times(all_taken_up(pre, turns), key) <= times(all_fired(pre, turns), key),
        state_after(pre, turns).stage is Idle ==> times(all_taken_up(pre, turns), key) == times(
            all_fired(pre, turns),
            key,
        ),
{
    law_each_firing_is_taken_up_once(pre, turns);
    lemma_times_add_up(due(pre), all_fired(pre, turns), key);
    lemma_times_add_up(all_taken_up(pre, turns), due(state_after(pre, turns)), key);
}

/// Where the peers are.
pub open spec fn places(origins: Seq<Origin>) -> Seq<SocketAddr> {
    origins.map_values(|origin: Origin| origin.1)
}

/// The addresses that have been taken up and not yet put forward.
pub open spec fn collected(state: DiscoveryState) -> Seq<SocketAddr> {
    match state.stage {
        Stage::Polling { announce_addrs, .. } => announce_addrs,
        Stage::Sending { announce_addrs, .. } => announce_addrs,
        _ => Seq::empty(),
    }
}

/// Whether the last substream to be polled has its turn.
pub open spec fn is_last_polled(state: DiscoveryState) -> bool {
    state.stage matches Stage::Sending { rest, .. } && rest.len() == 0
}

/// The addresses that a step puts forward.
pub open spec fn put_forward(pre: DiscoveryState, turn: Turn) -> Seq<SocketAddr> {
    match turn.event {
        PollEvent::Send(event) => if is_last_polled(pre) && send_ends(event) {
            collected(pre) + places(taken_up(pre, turn))
        } else {
            Seq::empty()
        },
        _ => Seq::empty(),
    }
}

/// The addresses that some steps put forward, in the order in which they do so.
pub open spec fn all_put_forward(pre: DiscoveryState, turns: Seq<Turn>) -> Seq<SocketAddr>
    decreases turns.len(),
{
    if turns.len() == 0 {
        Seq::empty()
    } else {
        all_put_forward(pre, turns.drop_last()) + put_forward(
            state_after(pre, turns.drop_last()),
            turns.last(),
        )
    }
}

/// When the last substream has been polled and has sent its messages, those that
/// have failed are closed, and the addresses that were collected are put forward to
/// those that are left.
pub proof fn law_collected_addresses_are_put_forward(pre: DiscoveryState, turn: Turn)
    requires
        pre.steps(turn.event, turn.orders, turn.post, turn.action),
        is_last_polled(pre),
        send_ends(turn.event->Send_0),
    ensures
        ({
            let key = pre.stage->Sending_key;
            let event = turn.event->Send_0;
            let value = pre.substreams[key].sending(event);
            let left = pre.with(key, value).noted(key, send_fails(event)).with(
                key,
                value.announced(),
            ).swept();
            let addrs = put_forward(pre, turn);
            &&& are_shuffles(turn.orders.shuffles, addrs.len(), left.substreams.dom())
            &&& left.spread(addrs, turn.orders.shuffles).goes_on_telling(
                turn.orders.told,
                turn.post,
                turn.action,
            )
        }),
{
    let value = pre.substreams[pre.stage->Sending_key];
    assert(put_forward(pre, turn) =~= if value.announce {
        collected(pre).push(value.remote_addr)
    } else {
        collected(pre)
    });
}

proof fn lemma_step_keeps_collected(pre: DiscoveryState, turn: Turn)
    requires
        pre.steps(turn.event, turn.orders, turn.post, turn.action),
    ensures
        collected(pre) + places(taken_up(pre, turn)) == put_forward(pre, turn) + collected(
            turn.post,
        ),
{
    assert(collected(pre) + places(taken_up(pre, turn)) =~= put_forward(pre, turn) + collected(
        turn.post,
    ));
}

proof fn lemma_all_taken_up_is_put_forward(pre: DiscoveryState, turns: Seq<Turn>)
    requires
        is_run(pre, turns),
    ensures
        collected(pre) + places(all_taken_up(pre, turns)) == all_put_forward(pre, turns)
            + collected(state_after(pre, turns)),
    decreases turns.len(),
{
    if turns.len() == 0 {
        assert(collected(pre) + places(all_taken_up(pre, turns)) =~= all_put_forward(pre, turns)
            + collected(pre));
    } else {
        let earlier = turns.drop_last();
        let mid = state_after(pre, earlier);
        let turn = turns.last();
        lemma_all_taken_up_is_put_forward(pre, earlier);
        lemma_step_keeps_collected(mid, turn);
        assert(collected(pre) + places(all_taken_up(pre, turns)) =~= (collected(pre) + places(
            all_taken_up(pre, earlier),
        )) + places(taken_up(mid, turn)));
        assert((all_put_forward(pre, earlier) + collected(mid)) + places(taken_up(mid, turn))
            =~= all_put_forward(pre, earlier) + (collected(mid) + places(taken_up(mid, turn))));
        assert(all_put_forward(pre, turns) + collected(turn.post) =~= all_put_forward(pre, earlier)
            + (put_forward(mid, turn) + collected(turn.post)));
    }
}

/// From between two rounds to a point at which every substream has been polled, the
/// addresses that are put forward are those of the peers on whose substreams the
/// timer fired, also of those that have failed: once for each time that it fired,
/// in that order, and no others.
pub proof fn law_what_fired_is_put_forward(pre: DiscoveryState, turns: Seq<Turn>)
    requires
        pre.wf(),
        pre.stage is Idle,
        is_run(pre, turns),
        state_after(pre, turns).stage is Idle || state_after(pre, turns).stage is Telling,
    ensures
        all_put_forward(pre, turns) == places(all_fired(pre, turns)),
{
    law_each_firing_is_taken_up_once(pre, turns);
    lemma_all_taken_up_is_put_forward(pre, turns);
    assert(all_taken_up(pre, turns) =~= all_fired(pre, turns));
    assert(all_put_forward(pre, turns) =~= places(all_taken_up(pre, turns)));
}

} // verus!
