//! A round of polling: what it consists of, and what each step of it does.

use crate::addr::{ManagerCall, SocketAddr};
use crate::message::{messages_view, DiscoveryMessage, MessageView, Nodes, NodesView};
use crate::substream::{
    Chance, SendEvent, StreamEnd, Substream, SubstreamKey, SubstreamState, TimerPoll,
};
use vstd::prelude::*;

verus! {

/// To how many substreams each announced address is put forward.
pub const ANNOUNCE_FANOUT: usize = 2;

/// What polling for a new substream gave.
#[derive(Clone, Copy, PartialEq, Eq, Structural, Debug)]
pub enum ReceiverPoll {
    Substream(Substream),
    NotReady,
    Failed,
}

/// No more substreams can be received.
#[derive(Clone, Copy, PartialEq, Eq, Structural, Debug)]
pub struct ReceiverError;

/// What came of the last [`PollAction`]; or, at the start, of polling for a new
/// substream.
#[derive(PartialEq, Eq, Debug)]
pub enum PollEvent {
    /// A round begins: this is what polling for a new substream gave.
    Receiver(ReceiverPoll),
    /// What polling a substream's timer gave, which messages had arrived, and why
    /// there were no more of them.
    Substream { timer: TimerPoll, arrived: Vec<DiscoveryMessage>, end: StreamEnd },
    /// What came of sending.
    Send(SendEvent),
}

/// What is to be done next.
#[derive(PartialEq, Eq, Debug)]
pub enum PollAction {
    /// Poll the timer of this substream and, if `read`, read the messages that
    /// have arrived on it.
    PollSubstream { key: SubstreamKey, read: bool },
    /// Give the stream of this substream a message.
    StartSend(SubstreamKey, DiscoveryMessage),
    /// Ask the stream of this substream to write out what it has taken.
    PollComplete(SubstreamKey),
    /// The round is over, and this list is passed on.
    Ready(Nodes),
    /// The round is over, and nothing is left to pass on.
    NotReady,
    /// The round is over: no more substreams can be received.
    Failed(ReceiverError),
}

/// How far a round has come.
#[verifier::ext_equal]
pub enum Stage {
    /// No round is under way.
    Idle,
    /// The substream `key` is being polled; those in `rest` are still to be.
    Polling { key: SubstreamKey, rest: Seq<SubstreamKey>, announce_addrs: Seq<SocketAddr> },
    /// The substream `key` has been polled and sends its messages.
    Sending { key: SubstreamKey, rest: Seq<SubstreamKey>, announce_addrs: Seq<SocketAddr> },
    /// The substream `key` sends what it was told; those in `rest` are still to be
    /// told.
    Telling { key: SubstreamKey, rest: Seq<SubstreamKey> },
}

/// What a [`Discovery`](crate::discovery::Discovery) stands for.
#[verifier::ext_equal]
pub struct DiscoveryState {
    pub max_known: nat,
    /// The lists that wait to be passed on, and where they came from.
    pub pending_nodes: Seq<(SubstreamKey, NodesView)>,
    pub substreams: Map<SubstreamKey, SubstreamState>,
    /// The substreams that have failed.
    pub err_keys: Set<SubstreamKey>,
    pub stage: Stage,
}

/// What is left to chance in one step.
pub struct Orders {
    /// What decides the answer to a question.
    pub chance: Chance,
    /// The order in which the substreams are polled, last to first.
    pub polled: Seq<SubstreamKey>,
    /// For each announced address, the order in which the substreams are chosen.
    pub shuffles: Seq<Seq<SubstreamKey>>,
    /// The order in which the substreams are told, last to first.
    pub told: Seq<SubstreamKey>,
}

impl Orders {
    /// Nothing is left to chance.
    pub open spec fn unset() -> Orders {
        Orders {
            chance: Chance { addrs: Seq::empty(), picks: Seq::empty() },
            polled: Seq::empty(),
            shuffles: Seq::empty(),
            told: Seq::empty(),
        }
    }
}

/// Whether `keys` holds each key of `set` once.
pub open spec fn is_order(keys: Seq<SubstreamKey>, set: Set<SubstreamKey>) -> bool {
    keys.no_duplicates() && keys.to_set() == set
}

/// Whether a step of sending is the last one.
pub open spec fn send_ends(event: SendEvent) -> bool {
    !(event is Start || event is Accepted)
}

/// Whether a step of sending failed.
pub open spec fn send_fails(event: SendEvent) -> bool {
    event is SendFailed || event is CompleteFailed
}

/// Whether `action` carries on sending the messages in `queue`.
pub open spec fn sends(action: PollAction, key: SubstreamKey, queue: Seq<MessageView>) -> bool {
    if queue.len() > 0 {
        action matches PollAction::StartSend(to, message) && to == key && message@ == queue.first()
    } else {
        action == PollAction::PollComplete(key)
    }
}

/// Whether `event` is what may come of `action`.
pub open spec fn may_come_of(event: PollEvent, action: PollAction) -> bool {
    match action {
        PollAction::PollSubstream { .. } => event is Substream,
        PollAction::StartSend(..) | PollAction::PollComplete(_) => event matches PollEvent::Send(
            sent,
        ) && sent !is Start,
        PollAction::Ready(_) | PollAction::NotReady | PollAction::Failed(_) => event is Receiver,
    }
}

/// The substreams after `addr` was put forward to one of them.
pub open spec fn offered_to(
    open: Map<SubstreamKey, SubstreamState>,
    addr: SocketAddr,
    key: SubstreamKey,
) -> Map<SubstreamKey, SubstreamState> {
    if open.contains_key(key) {
        open.insert(key, open[key].offered(addr))
    } else {
        open
    }
}

/// The substreams after `addr` was put forward to the first `n` in `order`, or to
/// all where there are fewer.
pub open spec fn offered(
    open: Map<SubstreamKey, SubstreamState>,
    addr: SocketAddr,
    order: Seq<SubstreamKey>,
    n: nat,
) -> Map<SubstreamKey, SubstreamState>
    decreases n,
{
    if n == 0 {
        open
    } else {
        let before = offered(open, addr, order, (n - 1) as nat);
        if n <= order.len() {
            offered_to(before, addr, order[n - 1])
        } else {
            before
        }
    }
}

/// The substreams after each of `addrs` was put forward to two of them, chosen by
/// an order of its own.
pub open spec fn spread_out(
    open: Map<SubstreamKey, SubstreamState>,
    addrs: Seq<SocketAddr>,
    shuffles: Seq<Seq<SubstreamKey>>,
) -> Map<SubstreamKey, SubstreamState>
    decreases addrs.len(),
{
    if addrs.len() == 0 {
        open
    } else {
        offered(
            spread_out(open, addrs.drop_last(), shuffles.drop_last()),
            addrs.last(),
            shuffles.last(),
            ANNOUNCE_FANOUT as nat,
        )
    }
}

/// Whether `shuffles` holds an order of the keys in `set` for each of `n`
/// addresses.
pub open spec fn are_shuffles(
    shuffles: Seq<Seq<SubstreamKey>>,
    n: nat,
    set: Set<SubstreamKey>,
) -> bool {
    &&& shuffles.len() == n
    &&& forall|i: int| 0 <= i < shuffles.len() ==> is_order(#[trigger] shuffles[i], set)
}

/// Whether every substream keeps to its limits.
pub open spec fn all_wf(open: Map<SubstreamKey, SubstreamState>) -> bool {
    forall|key: SubstreamKey| #[trigger] open.contains_key(key) ==> open[key].wf()
}

impl DiscoveryState {
    /// Nothing has happened yet.
    pub open spec fn initial(max_known: nat) -> DiscoveryState {
        DiscoveryState {
            max_known,
            pending_nodes: Seq::empty(),
            substreams: Map::empty(),
            err_keys: Set::empty(),
            stage: Stage::Idle,
        }
    }

    /// The substreams that the round has still to come to, the current one first.
    pub open spec fn to_come(self) -> Seq<SubstreamKey> {
        match self.stage {
            Stage::Idle => Seq::empty(),
            Stage::Polling { key, rest, .. } => rest.push(key),
            Stage::Sending { key, rest, .. } => rest.push(key),
            Stage::Telling { key, rest } => rest.push(key),
        }
    }

    /// The substreams that still have addresses to be told to their peers.
    pub open spec fn to_be_told(self) -> Seq<SubstreamKey> {
        match self.stage {
            Stage::Telling { rest, .. } => rest,
            _ => Seq::empty(),
        }
    }

    /// Whether the address of the peer on a substream may wait to be taken up: only
    /// from when the substream is polled until it has sent its messages.
    pub open spec fn may_announce(self, key: SubstreamKey) -> bool {
        self.stage matches Stage::Sending { key: current, .. } && current == key
    }

    pub open spec fn wf(self) -> bool {
        &&& all_wf(self.substreams)
        &&& forall|key: SubstreamKey|
            #[trigger] self.substreams.contains_key(key) && !self.to_be_told().contains(key)
                ==> self.substreams[key].announce_addrs.len() == 0
        &&& forall|key: SubstreamKey|
            #[trigger] self.substreams.contains_key(key) && self.substreams[key].announce
                ==> self.may_announce(key)
        &&& self.err_keys.subset_of(self.substreams.dom())
        &&& self.to_come().no_duplicates()
        &&& forall|i: int|
            0 <= i < self.to_come().len() ==> self.substreams.contains_key(
                #[trigger] self.to_come()[i],
            )
    }

    /// Whether `event` is what the round waits for.
    pub open spec fn expects(self, event: PollEvent) -> bool {
        match self.stage {
            Stage::Idle => event is Receiver,
            Stage::Polling { .. } => event is Substream,
            Stage::Sending { .. } | Stage::Telling { .. } => event matches PollEvent::Send(sent)
                && sent !is Start,
        }
    }

    /// The same, at another point of the round.
    pub open spec fn at(self, stage: Stage) -> DiscoveryState {
        DiscoveryState { stage, ..self }
    }

    /// After one substream has changed.
    pub open spec fn with(self, key: SubstreamKey, value: SubstreamState) -> DiscoveryState {
        DiscoveryState { substreams: self.substreams.insert(key, value), ..self }
    }

    /// After a new substream, if there is one, was opened.
    pub open spec fn opened(self, polled: ReceiverPoll) -> DiscoveryState {
        match polled {
            ReceiverPoll::Substream(substream) => self.with(
                SubstreamKey {
                    remote_addr: substream.remote_addr,
                    direction: substream.direction,
                    substream_id: substream.stream_id,
                },
                SubstreamState::fresh(substream.direction, self.max_known, substream.remote_addr),
            ),
            _ => self,
        }
    }

    /// After a substream has failed, if it has.
    pub open spec fn noted(self, key: SubstreamKey, failed: bool) -> DiscoveryState {
        if failed {
            DiscoveryState { err_keys: self.err_keys.insert(key), ..self }
        } else {
            self
        }
    }

    /// After a substream was polled. The lists that it passes on join the queue.
    pub open spec fn polled(
        self,
        key: SubstreamKey,
        timer: TimerPoll,
        arrived: Seq<MessageView>,
        end: StreamEnd,
        chance: Chance,
    ) -> DiscoveryState {
        let value = self.substreams[key].timed(timer);
        let readable = !value.remote_closed;
        DiscoveryState {
            pending_nodes: if readable && end !is Failed {
                self.pending_nodes + value.passed_on(arrived, chance).map_values(
                    |nodes: NodesView| (key, nodes),
                )
            } else {
                self.pending_nodes
            },
            ..self.with(key, value.received(arrived, end, chance)).noted(
                key,
                timer is Failed || (readable && end is Failed),
            )
        }
    }

    /// The calls that polling a substream makes to the address manager.
    pub open spec fn poll_calls(
        self,
        key: SubstreamKey,
        timer: TimerPoll,
        arrived: Seq<MessageView>,
        chance: Chance,
    ) -> Seq<ManagerCall> {
        let value = self.substreams[key].timed(timer);
        if value.remote_closed {
            Seq::empty()
        } else {
            value.calls_all(arrived, chance)
        }
    }

    /// After the substreams that have failed were closed.
    pub open spec fn swept(self) -> DiscoveryState {
        DiscoveryState {
            substreams: self.substreams.remove_keys(self.err_keys),
            err_keys: Set::empty(),
            ..self
        }
    }

    /// After each of `addrs` was put forward, in an order of its own.
    pub open spec fn spread(
        self,
        addrs: Seq<SocketAddr>,
        shuffles: Seq<Seq<SubstreamKey>>,
    ) -> DiscoveryState {
        DiscoveryState { substreams: spread_out(self.substreams, addrs, shuffles), ..self }
    }

    /// The end of a round: the first list that waits, if any, is passed on.
    pub open spec fn finishes(self, post: DiscoveryState, action: PollAction) -> bool {
        if self.pending_nodes.len() == 0 {
            &&& post == DiscoveryState { stage: Stage::Idle, ..self }
            &&& action is NotReady
        } else {
            &&& post == DiscoveryState {
                stage: Stage::Idle,
                pending_nodes: self.pending_nodes.drop_first(),
                ..self
            }
            &&& action matches PollAction::Ready(nodes) && nodes@ == self.pending_nodes.first().1
        }
    }

    /// The last substream in `rest` is told what waits for it and starts to send;
    /// where there is none, the round ends.
    pub open spec fn goes_on_telling(
        self,
        rest: Seq<SubstreamKey>,
        post: DiscoveryState,
        action: PollAction,
    ) -> bool {
        if rest.len() == 0 {
            self.finishes(post, action)
        } else {
            let key = rest.last();
            let value = self.substreams[key].told();
            &&& post == DiscoveryState {
                stage: Stage::Telling { key, rest: rest.drop_last() },
                ..self.with(key, value.sending(SendEvent::Start))
            }
            &&& sends(action, key, value.pending_messages)
        }
    }

    /// The last substream in `rest` is polled; where there is none, those that have
    /// failed are closed, the announced addresses are put forward, and the
    /// substreams that are left are told.
    pub open spec fn goes_on_polling(
        self,
        rest: Seq<SubstreamKey>,
        announce_addrs: Seq<SocketAddr>,
        orders: Orders,
        post: DiscoveryState,
        action: PollAction,
    ) -> bool {
        if rest.len() == 0 {
            let open = self.swept().substreams.dom();
            &&& are_shuffles(orders.shuffles, announce_addrs.len(), open)
            &&& is_order(orders.told, open)
            &&& self.swept().spread(announce_addrs, orders.shuffles).goes_on_telling(
                orders.told,
                post,
                action,
            )
        } else {
            let key = rest.last();
            &&& post == DiscoveryState {
                stage: Stage::Polling { key, rest: rest.drop_last(), announce_addrs },
                ..self
            }
            &&& action == PollAction::PollSubstream {
                key,
                read: !self.substreams[key].remote_closed,
            }
        }
    }

    /// One step of a round.
    pub open spec fn steps(
        self,
        event: PollEvent,
        orders: Orders,
        post: DiscoveryState,
        action: PollAction,
    ) -> bool {
        match (self.stage, event) {
            (Stage::Idle, PollEvent::Receiver(ReceiverPoll::Failed)) => {
                &&& post == self
                &&& action is Failed
            },
            (Stage::Idle, PollEvent::Receiver(polled)) => {
                &&& is_order(orders.polled, self.opened(polled).substreams.dom())
                &&& self.opened(polled).goes_on_polling(
                    orders.polled,
                    Seq::empty(),
                    orders,
                    post,
                    action,
                )
            },
            (
                Stage::Polling { key, rest, announce_addrs },
                PollEvent::Substream { timer, arrived, end },
            ) => {
                let after = self.polled(key, timer, messages_view(arrived@), end, orders.chance);
                let value = after.substreams[key];
                &&& orders.chance.valid()
                &&& post == DiscoveryState {
                    stage: Stage::Sending { key, rest, announce_addrs },
                    ..after.with(key, value.sending(SendEvent::Start))
                }
                &&& sends(action, key, value.pending_messages)
            },
            (Stage::Sending { key, rest, announce_addrs }, PollEvent::Send(event)) => {
                let value = self.substreams[key];
                let after = self.with(key, value.sending(event)).noted(key, send_fails(event));
                if send_ends(event) {
                    after.with(key, value.sending(event).announced()).goes_on_polling(
                        rest,
                        if value.announce {
                            announce_addrs.push(value.remote_addr)
                        } else {
                            announce_addrs
                        },
                        orders,
                        post,
                        action,
                    )
                } else {
                    &&& post == after
                    &&& sends(action, key, value.pending_messages)
                }
            },
            (Stage::Telling { key, rest }, PollEvent::Send(event)) => {
                let value = self.substreams[key];
                let after = self.with(key, value.sending(event)).noted(key, send_fails(event));
                if send_ends(event) {
                    after.goes_on_telling(rest, post, action)
                } else {
                    &&& post == after
                    &&& sends(action, key, value.pending_messages)
                }
            },
            _ => false,
        }
    }

    /// The calls that one step makes to the address manager.
    pub open spec fn step_calls(self, event: PollEvent, orders: Orders) -> Seq<ManagerCall> {
        match (self.stage, event) {
            (Stage::Polling { key, .. }, PollEvent::Substream { timer, arrived, .. }) => {
                self.poll_calls(key, timer, messages_view(arrived@), orders.chance)
            },
            _ => Seq::empty(),
        }
    }
}

/// The current substream and those to come are open, and none comes twice.
pub proof fn lemma_current_and_rest(
    state: DiscoveryState,
    key: SubstreamKey,
    rest: Seq<SubstreamKey>,
)
    requires
        state.wf(),
        state.to_come() == rest.push(key),
    ensures
        state.substreams.contains_key(key),
        rest.no_duplicates(),
        forall|i: int| 0 <= i < rest.len() ==> state.substreams.contains_key(#[trigger] rest[i]),
{
    assert(state.to_come()[rest.len() as int] == key);
    assert forall|i: int| 0 <= i < rest.len() implies state.substreams.contains_key(
        #[trigger] rest[i],
    ) by {
        assert(state.to_come()[i] == rest[i]);
    }
    assert forall|i: int, j: int|
        0 <= i < rest.len() && 0 <= j < rest.len() && i != j implies rest[i] != rest[j] by {
        assert(state.to_come()[i] != state.to_come()[j]);
    }
}

/// After a step the round waits for what may come of the action that the step
/// asked for.
pub proof fn lemma_action_settles_event(
    pre: DiscoveryState,
    event: PollEvent,
    orders: Orders,
    post: DiscoveryState,
    action: PollAction,
)
    requires
        pre.steps(event, orders, post, action),
    ensures
        forall|next: PollEvent| #[trigger] post.expects(next) == may_come_of(next, action),
{
}

} // verus!
