//! One conversation with one peer.

use crate::addr::{
    raw_of, AddrKnown, AddrRaw, AddressBook, AddressManager, KnownAddrs, ManagerCall, SocketAddr,
};
use crate::message::{
    all_addresses, lists_view, messages_view, DiscoveryMessage, MessageView, Nodes, NodesView,
};
use crate::random::{excess, sample, sampled};
use std::collections::VecDeque;
use vstd::prelude::*;

verus! {

/// The version of the protocol.
pub const VERSION: u32 = 0;

/// The most nodes that a list may hold that answers a question.
pub const MAX_ADDR_TO_SEND: usize = 1000;

/// The most nodes that an announcement may hold.
pub const ANNOUNCE_THRESHOLD: usize = 10;

/// The time between two announcements, in seconds: a day.
pub const ANNOUNCE_INTERVAL: u64 = 86400;

/// How many addresses the address manager is asked for, to choose an answer from.
pub const RANDOM_ADDRS: usize = 2500;

/// The most addresses that wait on one substream to be told to its peer.
pub const MAX_WAITING_ADDRS: usize = 10;

/// A question was asked a second time.
pub const REPEATED_GET_NODES: u32 = 111;

/// An announcement was too long.
pub const LONG_ANNOUNCEMENT: u32 = 222;

/// A question was answered a second time.
pub const REPEATED_NODES: u32 = 333;

/// An answer was too long.
pub const LONG_NODES: u32 = 444;

/// Which side opened a connection.
#[derive(Clone, Copy, PartialEq, Eq, Structural, Hash, Debug)]
pub enum Direction {
    /// The other peer.
    Inbound,
    /// This peer.
    Outbound,
}

/// What tells one substream from another.
#[derive(Clone, Copy, PartialEq, Eq, Structural, Hash, Debug)]
pub struct SubstreamKey {
    pub remote_addr: SocketAddr,
    pub direction: Direction,
    pub substream_id: u32,
}

/// A substream that has just been opened.
#[derive(Clone, Copy, PartialEq, Eq, Structural, Hash, Debug)]
pub struct Substream {
    pub remote_addr: SocketAddr,
    pub direction: Direction,
    /// The number that the multiplexer gave to the stream.
    pub stream_id: u32,
}

impl Substream {
    /// What tells this substream from others.
    pub fn key(&self) -> (key: SubstreamKey)
        ensures
            key == (SubstreamKey {
                remote_addr: self.remote_addr,
                direction: self.direction,
                substream_id: self.stream_id,
            }),
    {
        SubstreamKey {
            remote_addr: self.remote_addr,
            direction: self.direction,
            substream_id: self.stream_id,
        }
    }
}

/// What polling the announcement timer gave.
#[derive(Clone, Copy, PartialEq, Eq, Structural, Debug)]
pub enum TimerPoll {
    Fired,
    NotReady,
    Failed,
}

/// The announcement timer failed.
#[derive(Clone, Copy, PartialEq, Eq, Structural, Debug)]
pub struct TimerError;

/// The stream to the peer failed.
#[derive(Clone, Copy, PartialEq, Eq, Structural, Debug)]
pub struct StreamError;

/// Why reading from a stream came to an end for now.
#[derive(Clone, Copy, PartialEq, Eq, Structural, Debug)]
pub enum StreamEnd {
    /// Nothing more has arrived yet.
    NotReady,
    /// The peer has closed the stream.
    Closed,
    Failed,
}

/// Where the sending of the waiting messages stands.
#[derive(PartialEq, Eq, Debug)]
pub enum SendEvent {
    /// It begins.
    Start,
    /// The stream took the message that it was given.
    Accepted,
    /// The stream had no room and gave the message back.
    Refused(DiscoveryMessage),
    /// The stream failed over the message that it was given.
    SendFailed,
    /// The stream was asked to write out what it had taken.
    Completed,
    /// The stream failed when it was asked to write out what it had taken.
    CompleteFailed,
}

/// What is to be done next to send the waiting messages.
#[derive(PartialEq, Eq, Debug)]
pub enum SendAction {
    /// Give the stream this message.
    StartSend(DiscoveryMessage),
    /// Ask the stream to write out what it has taken.
    PollComplete,
    /// Nothing more for now.
    Done(Result<(), StreamError>),
}

/// What a [`SubstreamValue`] stands for.
#[verifier::ext_equal]
pub struct SubstreamState {
    /// The messages that wait to be sent, first to last.
    pub pending_messages: Seq<MessageView>,
    /// The addresses that the peer is known to have seen.
    pub addr_known: KnownAddrs,
    pub remote_addr: SocketAddr,
    /// Whether the peer's own address is to be told to others.
    pub announce: bool,
    /// The addresses that wait to be told to the peer.
    pub announce_addrs: Seq<SocketAddr>,
    pub received_get_nodes: bool,
    pub received_nodes: bool,
    pub remote_closed: bool,
}

/// What decides the answer to a question: the addresses that the address manager
/// came up with, and the random numbers by which they were cut down.
pub struct Chance {
    pub addrs: Seq<SocketAddr>,
    pub picks: Seq<usize>,
}

impl Chance {
    /// There is one random number for each address too many.
    pub open spec fn valid(self) -> bool {
        self.picks.len() == excess(self.addrs.len())
    }

    /// The list that answers the question.
    pub open spec fn answer(self) -> NodesView {
        NodesView::of_addresses(
            sampled(self.addrs, self.picks).map_values(|addr: SocketAddr| raw_of(addr)),
        )
    }
}

impl SubstreamState {
    /// A substream that was just opened. Whoever opened it asks for nodes.
    pub open spec fn fresh(
        direction: Direction,
        max_known: nat,
        remote_addr: SocketAddr,
    ) -> SubstreamState {
        SubstreamState {
            pending_messages: match direction {
                Direction::Outbound => seq![
                    MessageView::GetNodes { version: VERSION, count: MAX_ADDR_TO_SEND as u32 },
                ],
                Direction::Inbound => Seq::empty(),
            },
            addr_known: KnownAddrs::empty(max_known),
            remote_addr,
            announce: false,
            announce_addrs: Seq::empty(),
            received_get_nodes: false,
            received_nodes: false,
            remote_closed: false,
        }
    }

    pub open spec fn wf(self) -> bool {
        &&& self.addr_known.wf()
        &&& self.announce_addrs.len() <= MAX_WAITING_ADDRS
    }

    /// The rule that the peer breaks by sending `message`, if it breaks one: a
    /// question may be asked once and answered once, and no list may be too long.
    pub open spec fn fault(self, message: MessageView) -> Option<u32> {
        match message {
            MessageView::GetNodes { .. } => if self.received_get_nodes {
                Some(REPEATED_GET_NODES)
            } else {
                None
            },
            MessageView::Nodes(nodes) => if nodes.announce {
                if nodes.items.len() > ANNOUNCE_THRESHOLD {
                    Some(LONG_ANNOUNCEMENT)
                } else {
                    None
                }
            } else if self.received_nodes {
                Some(REPEATED_NODES)
            } else if nodes.items.len() > MAX_ADDR_TO_SEND {
                Some(LONG_NODES)
            } else {
                None
            },
        }
    }

    /// Whether `message` is a question that will be answered.
    pub open spec fn answers(self, message: MessageView) -> bool {
        message is GetNodes && self.fault(message) is None
    }

    /// Whether `message` is a list of nodes that will be passed on.
    pub open spec fn accepts(self, message: MessageView) -> bool {
        message is Nodes && self.fault(message) is None
    }

    /// After `message` has been handled. A message that breaks a rule changes
    /// nothing; a question is answered; a list is let through.
    pub open spec fn handled(self, message: MessageView, chance: Chance) -> SubstreamState {
        if self.fault(message) is Some {
            self
        } else {
            match message {
                MessageView::GetNodes { .. } => SubstreamState {
                    pending_messages: self.pending_messages.push(
                        MessageView::Nodes(chance.answer()),
                    ),
                    received_get_nodes: true,
                    ..self
                },
                MessageView::Nodes(nodes) => SubstreamState {
                    received_nodes: self.received_nodes || !nodes.announce,
                    ..self
                },
            }
        }
    }

    /// The calls that handling `message` makes to the address manager.
    pub open spec fn calls(self, message: MessageView, chance: Chance) -> Seq<ManagerCall> {
        match self.fault(message) {
            Some(kind) => seq![ManagerCall::Misbehave { addr: self.remote_addr, kind }],
            None => if message is GetNodes {
                seq![ManagerCall::GetRandom { n: RANDOM_ADDRS, answer: chance.addrs }]
            } else {
                Seq::empty()
            },
        }
    }

    /// After the addresses in `nodes` have been taken note of.
    pub open spec fn learned(self, nodes: NodesView) -> SubstreamState {
        SubstreamState {
            addr_known: self.addr_known.insert_all(all_addresses(nodes.items)),
            ..self
        }
    }

    /// After `message` has been received: handled, and learned from where it is a
    /// list that is passed on.
    pub open spec fn absorbed(self, message: MessageView, chance: Chance) -> SubstreamState {
        let after = self.handled(message, chance);
        if self.accepts(message) {
            after.learned(message->Nodes_0)
        } else {
            after
        }
    }

    /// After `messages` have been received, one after the other.
    pub open spec fn absorbed_all(
        self,
        messages: Seq<MessageView>,
        chance: Chance,
    ) -> SubstreamState
        decreases messages.len(),
    {
        if messages.len() == 0 {
            self
        } else {
            self.absorbed_all(messages.drop_last(), chance).absorbed(messages.last(), chance)
        }
    }

    /// The lists that are passed on when `messages` are received.
    pub open spec fn passed_on(self, messages: Seq<MessageView>, chance: Chance) -> Seq<NodesView>
        decreases messages.len(),
    {
        if messages.len() == 0 {
            Seq::empty()
        } else {
            let earlier = self.passed_on(messages.drop_last(), chance);
            if self.absorbed_all(messages.drop_last(), chance).accepts(messages.last()) {
                earlier.push(messages.last()->Nodes_0)
            } else {
                earlier
            }
        }
    }

    /// The calls that receiving `messages` makes to the address manager.
    pub open spec fn calls_all(
        self,
        messages: Seq<MessageView>,
        chance: Chance,
    ) -> Seq<ManagerCall>
        decreases messages.len(),
    {
        if messages.len() == 0 {
            Seq::empty()
        } else {
            self.calls_all(messages.drop_last(), chance) + self.absorbed_all(
                messages.drop_last(),
                chance,
            ).calls(messages.last(), chance)
        }
    }

    /// After `messages` have been received and reading came to `end`. Nothing is
    /// read from a stream that the peer has closed.
    pub open spec fn received(
        self,
        messages: Seq<MessageView>,
        end: StreamEnd,
        chance: Chance,
    ) -> SubstreamState {
        if self.remote_closed {
            self
        } else {
            SubstreamState {
                remote_closed: end is Closed,
                ..self.absorbed_all(messages, chance)
            }
        }
    }

    /// After the timer was polled.
    pub open spec fn timed(self, polled: TimerPoll) -> SubstreamState {
        SubstreamState { announce: self.announce || polled is Fired, ..self }
    }

    /// After the peer's own address was taken up to be told to others.
    pub open spec fn announced(self) -> SubstreamState {
        SubstreamState { announce: false, ..self }
    }

    /// After `addr` was put forward to be told to the peer. No more than
    /// [`MAX_WAITING_ADDRS`] addresses wait.
    pub open spec fn offered(self, addr: SocketAddr) -> SubstreamState {
        if self.announce_addrs.len() < MAX_WAITING_ADDRS {
            SubstreamState { announce_addrs: self.announce_addrs.push(addr), ..self }
        } else {
            self
        }
    }

    /// The waiting addresses that the peer is not known to have seen.
    pub open spec fn news(self) -> Seq<AddrRaw> {
        self.announce_addrs.map_values(|addr: SocketAddr| raw_of(addr)).filter(
            |raw: AddrRaw| !self.addr_known.addrs.contains(raw),
        )
    }

    /// After the waiting addresses have been put into an announcement. Where none
    /// waits there is none; where all are known already it is an empty list.
    pub open spec fn told(self) -> SubstreamState {
        if self.announce_addrs.len() == 0 {
            self
        } else {
            SubstreamState {
                pending_messages: self.pending_messages.push(
                    MessageView::Nodes(NodesView::announcement(self.news())),
                ),
                announce_addrs: Seq::empty(),
                ..self
            }
        }
    }

    /// After one step of sending the waiting messages.
    pub open spec fn sending(self, event: SendEvent) -> SubstreamState {
        SubstreamState { pending_messages: queue_after(self.pending_messages, event), ..self }
    }
}

/// The waiting messages after one step of sending them.
pub open spec fn queue_after(queue: Seq<MessageView>, event: SendEvent) -> Seq<MessageView> {
    match event {
        SendEvent::Start | SendEvent::Accepted => if queue.len() > 0 {
            queue.drop_first()
        } else {
            queue
        },
        SendEvent::Refused(message) => seq![message@] + queue,
        _ => queue,
    }
}

/// What is to be done after one step of sending the waiting messages.
pub open spec fn next_action(
    queue: Seq<MessageView>,
    event: SendEvent,
    action: SendAction,
) -> bool {
    match event {
        SendEvent::Start | SendEvent::Accepted => if queue.len() > 0 {
            action matches SendAction::StartSend(message) && message@ == queue.first()
        } else {
            action is PollComplete
        },
        SendEvent::Refused(_) | SendEvent::Completed => action == SendAction::Done(Ok(())),
        SendEvent::SendFailed | SendEvent::CompleteFailed => action == SendAction::Done(
            Err(StreamError),
        ),
    }
}

/// Receiving messages changes nothing but what waits to be sent, what is known to
/// have been seen, and whether a question and its answer have come.
pub proof fn lemma_receiving_leaves_the_rest(
    state: SubstreamState,
    messages: Seq<MessageView>,
    chance: Chance,
)
    ensures
        state.absorbed_all(messages, chance).remote_addr == state.remote_addr,
        state.absorbed_all(messages, chance).announce == state.announce,
        state.absorbed_all(messages, chance).announce_addrs == state.announce_addrs,
        state.absorbed_all(messages, chance).remote_closed == state.remote_closed,
    decreases messages.len(),
{
    if messages.len() > 0 {
        lemma_receiving_leaves_the_rest(state, messages.drop_last(), chance);
    }
}

/// What is known about one substream and what waits on it.
pub struct SubstreamValue {
    pending_messages: VecDeque<DiscoveryMessage>,
    addr_known: AddrKnown,
    remote_addr: SocketAddr,
    announce: bool,
    announce_addrs: Vec<SocketAddr>,
    received_get_nodes: bool,
    received_nodes: bool,
    remote_closed: bool,
}

impl View for SubstreamValue {
    type V = SubstreamState;

    closed spec fn view(&self) -> SubstreamState {
        SubstreamState {
            pending_messages: messages_view(self.pending_messages@),
            addr_known: self.addr_known@,
            remote_addr: self.remote_addr,
            announce: self.announce,
            announce_addrs: self.announce_addrs@,
            received_get_nodes: self.received_get_nodes,
            received_nodes: self.received_nodes,
            remote_closed: self.remote_closed,
        }
    }
}

impl SubstreamValue {
    /// A substream that was just opened. Whoever opened it asks for nodes.
    pub fn new(direction: Direction, max_known: usize, remote_addr: SocketAddr) -> (value:
        SubstreamValue)
        ensures
            value@ == SubstreamState::fresh(direction, max_known as nat, remote_addr),
            value@.wf(),
    {
        let mut pending_messages: VecDeque<DiscoveryMessage> = VecDeque::new();
        if direction == Direction::Outbound {
            pending_messages.push_back(
                DiscoveryMessage::GetNodes { version: VERSION, count: MAX_ADDR_TO_SEND as u32 },
            );
        }
        let value = SubstreamValue {
            pending_messages,
            addr_known: AddrKnown::new(max_known),
            remote_addr,
            announce: false,
            announce_addrs: Vec::new(),
            received_get_nodes: false,
            received_nodes: false,
            remote_closed: false,
        };
        assert(value@ =~= SubstreamState::fresh(direction, max_known as nat, remote_addr));
        value
    }

    /// Where the peer is.
    pub fn remote_addr(&self) -> (addr: SocketAddr)
        ensures
            addr == self@.remote_addr,
    {
        self.remote_addr
    }

    /// Whether the peer's own address is to be told to others. It is then taken as
    /// told, until the timer fires again.
    pub fn take_announcement(&mut self) -> (due: bool)
        ensures
            due == old(self)@.announce,
            final(self)@ == old(self)@.announced(),
    {
        let due = self.announce;
        self.announce = false;
        due
    }

    /// Whether the peer has closed the stream.
    pub fn remote_closed(&self) -> (closed: bool)
        ensures
            closed == self@.remote_closed,
    {
        self.remote_closed
    }

    /// Takes note of what polling the announcement timer gave. Each time that the
    /// timer has fired, the peer's address is to be announced.
    pub fn check_timer(&mut self, polled: TimerPoll) -> (checked: Result<(), TimerError>)
        ensures
            final(self)@ == old(self)@.timed(polled),
            checked is Err <==> polled is Failed,
    {
        match polled {
            TimerPoll::Fired => {
                self.announce = true;
                Ok(())
            },
            TimerPoll::NotReady => Ok(()),
            TimerPoll::Failed => Err(TimerError),
        }
    }

    /// One step of sending the waiting messages: in their order, until none is
    /// left or the stream refuses one, which then stays first.
    pub fn send_messages(&mut self, event: SendEvent) -> (action: SendAction)
        ensures
            final(self)@ == old(self)@.sending(event),
            next_action(old(self)@.pending_messages, event, action),
    {
        let ghost queue = self.pending_messages@;
        match event {
            SendEvent::Start | SendEvent::Accepted => match self.pending_messages.pop_front() {
                Some(message) => {
                    assert(messages_view(self.pending_messages@) =~= messages_view(
                        queue,
                    ).drop_first());
                    SendAction::StartSend(message)
                },
                None => SendAction::PollComplete,
            },
            SendEvent::Refused(message) => {
                self.pending_messages.push_front(message);
                assert(messages_view(self.pending_messages@) =~= seq![message@] + messages_view(
                    queue,
                ));
                SendAction::Done(Ok(()))
            },
            SendEvent::Completed => SendAction::Done(Ok(())),
            SendEvent::SendFailed | SendEvent::CompleteFailed => SendAction::Done(
                Err(StreamError),
            ),
        }
    }

    /// Answers a question with the nodes at `addrs`.
    pub fn answer(&mut self, addrs: Vec<SocketAddr>)
        ensures
            final(self)@ == (SubstreamState {
                pending_messages: old(self)@.pending_messages.push(
                    MessageView::Nodes(
                        NodesView::of_addresses(
                            addrs@.map_values(|addr: SocketAddr| raw_of(addr)),
                        ),
                    ),
                ),
                received_get_nodes: true,
                ..old(self)@
            }),
    {
        let ghost queue = self.pending_messages@;
        let raws = to_raw(&addrs);
        let nodes = Nodes::of_addresses(&raws);
        let message = DiscoveryMessage::Nodes(nodes);
        self.pending_messages.push_back(message);
        self.received_get_nodes = true;
        assert(messages_view(self.pending_messages@) =~= messages_view(queue).push(message@));
    }

    /// Decides what becomes of a message from the peer.
    ///
    /// A message that breaks a rule is reported to the address manager and goes no
    /// further. The first question is answered, from addresses that the manager
    /// comes up with. A list of nodes is handed back, to be passed on.
    pub fn handle_message<M: AddressManager>(
        &mut self,
        message: DiscoveryMessage,
        addr_mgr: &mut AddressBook<M>,
    ) -> (passed: Result<Option<Nodes>, StreamError>)
        requires
            old(self)@.wf(),
        ensures
            final(self)@.wf(),
            exists|chance: Chance|
                {
                    &&& chance.valid()
                    &&& final(self)@ == #[trigger] old(self)@.handled(message@, chance)
                    &&& final(addr_mgr).calls() == old(addr_mgr).calls() + old(self)@.calls(
                        message@,
                        chance,
                    )
                },
            match message {
                DiscoveryMessage::Nodes(nodes) if old(self)@.accepts(message@) => passed == Ok::<
                    Option<Nodes>,
                    StreamError,
                >(Some(nodes)),
                _ => passed == Ok::<Option<Nodes>, StreamError>(None),
            },
            old(self)@.accepts(message@) ==> *final(addr_mgr) == *old(addr_mgr),
    {
        let ghost before = self@;
        let ghost calls = addr_mgr.calls();
        let ghost mut chance = Chance { addrs: Seq::empty(), picks: Seq::empty() };
        let ghost said = message@;
        let mut passed: Option<Nodes> = None;
        match message {
            DiscoveryMessage::GetNodes { .. } => {
                if self.received_get_nodes {
                    addr_mgr.misbehave(self.remote_addr, REPEATED_GET_NODES);
                } else {
                    let mut items = addr_mgr.get_random(RANDOM_ADDRS);
                    let ghost addrs = items@;
                    sample(&mut items);
                    proof {
                        let picks = choose|picks: Seq<usize>|
                            picks.len() == excess(addrs.len()) && items@ == #[trigger] sampled(
                                addrs,
                                picks,
                            );
                        chance = Chance { addrs, picks };
                    }
                    self.answer(items);
                }
            },
            DiscoveryMessage::Nodes(nodes) => {
                assert(said->Nodes_0.items.len() == nodes.items@.len());
                if nodes.announce {
                    if nodes.items.len() > ANNOUNCE_THRESHOLD {
                        addr_mgr.misbehave(self.remote_addr, LONG_ANNOUNCEMENT);
                    } else {
                        passed = Some(nodes);
                    }
                } else if self.received_nodes {
                    addr_mgr.misbehave(self.remote_addr, REPEATED_NODES);
                } else if nodes.items.len() > MAX_ADDR_TO_SEND {
                    addr_mgr.misbehave(self.remote_addr, LONG_NODES);
                } else {
                    self.received_nodes = true;
                    passed = Some(nodes);
                }
            },
        }
        assert(self@ =~= before.handled(said, chance));
        assert(addr_mgr.calls() =~= calls + before.calls(said, chance));
        Ok(passed)
    }

    /// Takes note that the peer has seen the addresses in `nodes`.
    fn learn(&mut self, nodes: &Nodes)
        requires
            old(self)@.wf(),
        ensures
            final(self)@ == old(self)@.learned(nodes@),
            final(self)@.wf(),
    {
        let ghost before = self@;
        let ghost views = nodes@.items;
        let mut i: usize = 0;
        assert(views.take(0) =~= Seq::empty());
        while i < nodes.items.len()
            invariant
                i <= nodes.items@.len(),
                views == nodes@.items,
                self@ == (SubstreamState {
                    addr_known: before.addr_known.insert_all(all_addresses(views.take(i as int))),
                    ..before
                }),
                self@.wf(),
            decreases nodes.items@.len() - i,
        {
            let ghost so_far = all_addresses(views.take(i as int));
            let addresses = &nodes.items[i].addresses;
            let mut j: usize = 0;
            assert(so_far + addresses@.take(0) =~= so_far);
            while j < addresses.len()
                invariant
                    j <= addresses@.len(),
                    self@ == (SubstreamState {
                        addr_known: before.addr_known.insert_all(
                            so_far + addresses@.take(j as int),
                        ),
                        ..before
                    }),
                    self@.wf(),
                decreases addresses@.len() - j,
            {
                proof {
                    let longer = so_far + addresses@.take(j + 1);
                    assert(longer.drop_last() =~= so_far + addresses@.take(j as int));
                    assert(longer.last() == addresses@[j as int]);
                }
                self.addr_known.insert(addresses[j]);
                j += 1;
            }
            proof {
                assert(addresses@.take(j as int) =~= addresses@);
                assert(views.take(i + 1).drop_last() =~= views.take(i as int));
                assert(views.take(i + 1).last() == nodes.items@[i as int]@);
            }
            i += 1;
        }
        assert(views.take(i as int) =~= views);
    }

    /// Takes in the messages that have arrived on the stream, up to the point
    /// where reading came to `end`.
    ///
    /// The answer is the lists of nodes to be passed on, in the order in which they
    /// arrived. There is none where the peer had closed the stream before: then
    /// nothing is read. Where the stream failed, the lists are lost.
    pub fn receive_messages<M: AddressManager>(
        &mut self,
        arrived: Vec<DiscoveryMessage>,
        end: StreamEnd,
        addr_mgr: &mut AddressBook<M>,
    ) -> (received: Result<Option<Vec<Nodes>>, StreamError>)
        requires
            old(self)@.wf(),
        ensures
            final(self)@.wf(),
            old(self)@.remote_closed ==> {
                &&& final(self)@ == old(self)@
                &&& *final(addr_mgr) == *old(addr_mgr)
                &&& received matches Ok(None)
            },
            !old(self)@.remote_closed ==> exists|chance: Chance|
                {
                    &&& chance.valid()
                    &&& final(self)@ == #[trigger] old(self)@.received(
                        messages_view(arrived@),
                        end,
                        chance,
                    )
                    &&& final(addr_mgr).calls() == old(addr_mgr).calls() + old(self)@.calls_all(
                        messages_view(arrived@),
                        chance,
                    )
                    &&& old(self)@.calls_all(messages_view(arrived@), chance).len() == 0
                        ==> *final(addr_mgr) == *old(addr_mgr)
                    &&& end is Failed ==> received is Err
                    &&& end !is Failed ==> received is Ok && received->Ok_0 is Some && lists_view(
                        received->Ok_0->0@,
                    ) == old(self)@.passed_on(messages_view(arrived@), chance)
                },
    {
        if self.remote_closed {
            return Ok(None);
        }
        let ghost before = self@;
        let ghost calls = addr_mgr.calls();
        let ghost all = arrived@;
        let ghost said = messages_view(all);
        let ghost mut asked = false;
        let ghost mut chance = Chance { addrs: Seq::empty(), picks: Seq::empty() };
        let mut nodes_list: Vec<Nodes> = Vec::new();
        assert(said.take(0) =~= Seq::empty());
        for message in it: arrived
            invariant
                it.seq() == all,
                said == messages_view(all),
                self@.wf(),
                !before.remote_closed,
                !self@.remote_closed,
                chance.valid(),
                calls.len() <= addr_mgr.calls().len(),
                addr_mgr.calls().len() == calls.len() ==> *addr_mgr == *old(addr_mgr),
                asked ==> self@.received_get_nodes,
                forall|c: Chance|
                    (!asked || c == chance) ==> {
                        &&& self@ == #[trigger] before.absorbed_all(said.take(it.index()), c)
                        &&& addr_mgr.calls() == calls + before.calls_all(said.take(it.index()), c)
                        &&& lists_view(nodes_list@) == before.passed_on(said.take(it.index()), c)
                    },
        {
            let ghost i = it.index();
            let ghost now = self@;
            let ghost now_calls = addr_mgr.calls();
            let ghost lists = lists_view(nodes_list@);
            let ghost was_asked = asked;
            let ghost was_chance = chance;
            let ghost msg = message@;
            proof {
                assert(said[i] == msg);
                assert(said.take(i + 1).drop_last() =~= said.take(i));
                assert(said.take(i + 1).last() == msg);
            }
            let passed = self.handle_message(message, addr_mgr);
            proof {
                let c = choose|c: Chance|
                    {
                        &&& c.valid()
                        &&& self@ == #[trigger] now.handled(msg, c)
                        &&& addr_mgr.calls() == now_calls + now.calls(msg, c)
                    };
                if now.answers(msg) {
                    asked = true;
                    chance = c;
                }
                assert forall|d: Chance| (!asked || d == chance) implies {
                    &&& self@ == #[trigger] now.handled(msg, d)
                    &&& addr_mgr.calls() == now_calls + now.calls(msg, d)
                } by {}
            }
            let ghost handled = self@;
            let ghost handled_calls = addr_mgr.calls();
            if let Ok(Some(nodes)) = passed {
                self.learn(&nodes);
                nodes_list.push(nodes);
                assert(lists_view(nodes_list@) =~= lists.push(msg->Nodes_0));
            }
            proof {
                assert forall|d: Chance| (!asked || d == chance) implies {
                    &&& self@ == #[trigger] before.absorbed_all(said.take(i + 1), d)
                    &&& addr_mgr.calls() == calls + before.calls_all(said.take(i + 1), d)
                    &&& lists_view(nodes_list@) == before.passed_on(said.take(i + 1), d)
                } by {
                    assert(now == before.absorbed_all(said.take(i), d));
                    assert(handled == now.handled(msg, d));
                    assert(addr_mgr.calls() =~= calls + before.calls_all(said.take(i + 1), d));
                }
            }
        }
        assert(said.take(said.len() as int) =~= said);
        assert(self@ == before.absorbed_all(said, chance));
        match end {
            StreamEnd::NotReady => {
                assert(self@ =~= before.received(said, end, chance));
                Ok(Some(nodes_list))
            },
            StreamEnd::Closed => {
                self.remote_closed = true;
                assert(self@ =~= before.received(said, end, chance));
                Ok(Some(nodes_list))
            },
            StreamEnd::Failed => {
                assert(self@ =~= before.received(said, end, chance));
                Err(StreamError)
            },
        }
    }

    /// Puts `addr` forward to be told to the peer, unless enough addresses wait
    /// already.
    pub fn offer(&mut self, addr: SocketAddr)
        requires
            old(self)@.wf(),
        ensures
            final(self)@ == old(self)@.offered(addr),
            final(self)@.wf(),
    {
        if self.announce_addrs.len() < MAX_WAITING_ADDRS {
            self.announce_addrs.push(addr);
        }
    }

    /// Puts the waiting addresses into an announcement, leaving out those that the
    /// peer is known to have seen.
    pub fn tell(&mut self)
        requires
            old(self)@.wf(),
        ensures
            final(self)@ == old(self)@.told(),
            final(self)@.wf(),
    {
        let ghost before = self@;
        let ghost queue = self.pending_messages@;
        let announce_addrs = self.announce_addrs.split_off(0);
        assert(announce_addrs@ =~= before.announce_addrs);
        assert(self.announce_addrs@ =~= Seq::empty());
        if !announce_addrs.is_empty() {
            let raws = to_raw(&announce_addrs);
            let ghost unseen = |raw: AddrRaw| !before.addr_known.addrs.contains(raw);
            let mut news: Vec<AddrRaw> = Vec::new();
            let mut i: usize = 0;
            assert(raws@.take(0) =~= Seq::empty());
            reveal(Seq::filter);
            while i < raws.len()
                invariant
                    i <= raws@.len(),
                    self.addr_known@ == before.addr_known,
                    unseen == (|raw: AddrRaw| !before.addr_known.addrs.contains(raw)),
                    news@ == raws@.take(i as int).filter(unseen),
                decreases raws@.len() - i,
            {
                assert(raws@.take(i + 1).drop_last() =~= raws@.take(i as int));
                reveal(Seq::filter);
                if !self.addr_known.contains(&raws[i]) {
                    news.push(raws[i]);
                }
                i += 1;
            }
            assert(raws@.take(i as int) =~= raws@);
            let message = DiscoveryMessage::Nodes(Nodes::announcement(&news));
            self.pending_messages.push_back(message);
            assert(messages_view(self.pending_messages@) =~= messages_view(queue).push(message@));
        }
        assert(self@ =~= before.told());
    }
}

/// The travelling forms of `addrs`.
fn to_raw(addrs: &Vec<SocketAddr>) -> (raws: Vec<AddrRaw>)
    ensures
        raws@ == addrs@.map_values(|addr: SocketAddr| raw_of(addr)),
{
    let mut raws: Vec<AddrRaw> = Vec::new();
    let mut i: usize = 0;
    while i < addrs.len()
        invariant
            i <= addrs@.len(),
            raws@.len() == i,
            forall|j: int| 0 <= j < i ==> raws@[j] == raw_of(addrs@[j]),
        decreases addrs@.len() - i,
    {
        raws.push(AddrRaw::from(addrs[i]));
        i += 1;
    }
    assert(raws@ =~= addrs@.map_values(|addr: SocketAddr| raw_of(addr)));
    raws
}

} // verus!
