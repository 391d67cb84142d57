//! All conversations together: who is polled when, what is passed on, and which
//! addresses are told to whom.

use crate::addr::{AddressBook, AddressManager, ManagerCall, SocketAddr, DEFAULT_MAX_KNOWN};
use crate::laws::law_spreading_only_adds;
use crate::message::{lists_view, messages_view, DiscoveryMessage, Nodes, NodesView};
use crate::random::shuffle;
use crate::round::{
    all_wf, are_shuffles, is_order, lemma_action_settles_event, lemma_current_and_rest,
    may_come_of, offered, offered_to, send_fails, spread_out, DiscoveryState, Orders, PollAction,
    PollEvent, ReceiverError, ReceiverPoll, Stage, ANNOUNCE_FANOUT,
};
use crate::substream::{
    lemma_receiving_leaves_the_rest, next_action, Chance, SendAction, SendEvent, StreamEnd,
    SubstreamKey, SubstreamValue, TimerPoll,
};
use crate::table::{KeySet, SubstreamTable};
use std::collections::VecDeque;
use vstd::prelude::*;

verus! {

/// How far a round has come.
enum Progress {
    Idle,
    Polling { key: SubstreamKey, rest: Vec<SubstreamKey>, announce_addrs: Vec<SocketAddr> },
    Sending { key: SubstreamKey, rest: Vec<SubstreamKey>, announce_addrs: Vec<SocketAddr> },
    Telling { key: SubstreamKey, rest: Vec<SubstreamKey> },
}

impl View for Progress {
    type V = Stage;

    closed spec fn view(&self) -> Stage {
        match self {
            Progress::Idle => Stage::Idle,
            Progress::Polling { key, rest, announce_addrs } => Stage::Polling {
                key: *key,
                rest: rest@,
                announce_addrs: announce_addrs@,
            },
            Progress::Sending { key, rest, announce_addrs } => Stage::Sending {
                key: *key,
                rest: rest@,
                announce_addrs: announce_addrs@,
            },
            Progress::Telling { key, rest } => Stage::Telling { key: *key, rest: rest@ },
        }
    }
}

/// What a queue of lists and their origins says.
pub open spec fn queue_view(queue: Seq<(SubstreamKey, Nodes)>) -> Seq<(SubstreamKey, NodesView)> {
    queue.map_values(|entry: (SubstreamKey, Nodes)| (entry.0, entry.1@))
}

/// How a round goes on does not depend on the point that it had come to.
proof fn lemma_polling_forgets_stage(
    a: DiscoveryState,
    b: DiscoveryState,
    rest: Seq<SubstreamKey>,
    announce_addrs: Seq<SocketAddr>,
    orders: Orders,
    post: DiscoveryState,
    action: PollAction,
)
    requires
        b.at(a.stage) == a,
        b.goes_on_polling(rest, announce_addrs, orders, post, action),
    ensures
        a.goes_on_polling(rest, announce_addrs, orders, post, action),
{
}

/// Puts `addr` forward to the first two substreams in `order`.
pub fn offer(substreams: &mut SubstreamTable, addr: SocketAddr, order: &Vec<SubstreamKey>)
    requires
        all_wf(old(substreams)@),
    ensures
        final(substreams)@ == offered(
            old(substreams)@,
            addr,
            order@,
            ANNOUNCE_FANOUT as nat,
        ),
        final(substreams)@.dom() == old(substreams)@.dom(),
        all_wf(final(substreams)@),
{
    let ghost before = substreams@;
    let mut i: usize = 0;
    while i < ANNOUNCE_FANOUT
        invariant
            i <= ANNOUNCE_FANOUT,
            substreams@ == offered(before, addr, order@, i as nat),
            substreams@.dom() == before.dom(),
            all_wf(substreams@),
        decreases ANNOUNCE_FANOUT - i,
    {
        if i < order.len() {
            let ghost now = substreams@;
            if let Some(value) = substreams.get_mut(order[i]) {
                value.offer(addr);
            }
            assert(substreams@ =~= offered_to(now, addr, order@[i as int]));
            assert(substreams@.dom() =~= now.dom());
        }
        i += 1;
    }
}

/// Puts each of `addrs` forward to two substreams, chosen at random.
pub fn spread(substreams: &mut SubstreamTable, addrs: &Vec<SocketAddr>)
    requires
        all_wf(old(substreams)@),
    ensures
        exists|shuffles: Seq<Seq<SubstreamKey>>|
            are_shuffles(shuffles, addrs@.len(), old(substreams)@.dom()) && final(substreams)@
                == #[trigger] spread_out(old(substreams)@, addrs@, shuffles),
        final(substreams)@.dom() == old(substreams)@.dom(),
        all_wf(final(substreams)@),
{
    let ghost before = substreams@;
    let ghost mut shuffles: Seq<Seq<SubstreamKey>> = Seq::empty();
    let mut keys = substreams.keys();
    let mut i: usize = 0;
    assert(addrs@.take(0) =~= Seq::empty());
    while i < addrs.len()
        invariant
            i <= addrs@.len(),
            is_order(keys@, before.dom()),
            are_shuffles(shuffles, i as nat, before.dom()),
            substreams@ == spread_out(before, addrs@.take(i as int), shuffles),
            substreams@.dom() == before.dom(),
            all_wf(substreams@),
        decreases addrs@.len() - i,
    {
        let ghost order = keys@;
        shuffle(&mut keys);
        proof {
            lemma_shuffled_is_order(order, keys@, before.dom());
        }
        offer(substreams, addrs[i], &keys);
        proof {
            assert(addrs@.take(i + 1).drop_last() =~= addrs@.take(i as int));
            assert(shuffles.push(keys@).drop_last() =~= shuffles);
            shuffles = shuffles.push(keys@);
        }
        i += 1;
    }
    assert(addrs@.take(i as int) =~= addrs@);
}

/// A different order of the same keys is an order of the same set.
proof fn lemma_shuffled_is_order(
    keys: Seq<SubstreamKey>,
    shuffled: Seq<SubstreamKey>,
    set: Set<SubstreamKey>,
)
    requires
        is_order(keys, set),
        shuffled.to_multiset() == keys.to_multiset(),
    ensures
        is_order(shuffled, set),
{
    broadcast use vstd::seq_lib::group_to_multiset_ensures;

    keys.lemma_multiset_has_no_duplicates();
    shuffled.lemma_multiset_has_no_duplicates_conv();
    assert forall|key: SubstreamKey| shuffled.to_set().contains(key) == set.contains(key) by {
        assert(shuffled.contains(key) == (shuffled.to_multiset().count(key) > 0));
        assert(keys.contains(key) == (keys.to_multiset().count(key) > 0));
        assert(keys.to_set().contains(key) == keys.contains(key));
    }
    assert(shuffled.to_set() =~= set);
}

/// Puts `lists` at the end of the queue, as coming from the substream `key`.
fn enqueue(queue: &mut VecDeque<(SubstreamKey, Nodes)>, key: SubstreamKey, lists: Vec<Nodes>)
    ensures
        queue_view(final(queue)@) == queue_view(old(queue)@) + lists_view(lists@).map_values(
            |nodes: NodesView| (key, nodes),
        ),
{
    let ghost before = queue_view(queue@);
    let ghost all = lists@;
    for nodes in it: lists
        invariant
            it.seq() == all,
            queue_view(queue@) == before + lists_view(all.take(it.index())).map_values(
                |nodes: NodesView| (key, nodes),
            ),
    {
        let ghost now = queue@;
        queue.push_back((key, nodes));
        proof {
            assert(queue_view(queue@) =~= queue_view(now).push((key, nodes@)));
            let longer = lists_view(all.take(it.index() + 1)).map_values(
                |nodes: NodesView| (key, nodes),
            );
            assert(longer =~= lists_view(all.take(it.index())).map_values(
                |nodes: NodesView| (key, nodes),
            ).push((key, nodes@)));
        }
    }
    assert(all.take(all.len() as int) =~= all);
}

/// All conversations of this peer with others.
pub struct Discovery<M> {
    max_known: usize,
    addr_mgr: AddressBook<M>,
    pending_nodes: VecDeque<(SubstreamKey, Nodes)>,
    substreams: SubstreamTable,
    err_keys: KeySet,
    progress: Progress,
}

impl<M> View for Discovery<M> {
    type V = DiscoveryState;

    closed spec fn view(&self) -> DiscoveryState {
        DiscoveryState {
            max_known: self.max_known as nat,
            pending_nodes: queue_view(self.pending_nodes@),
            substreams: self.substreams@,
            err_keys: self.err_keys@,
            stage: self.progress@,
        }
    }
}

impl<M: AddressManager> Discovery<M> {
    /// The calls made to the address manager so far, oldest first.
    pub closed spec fn calls(&self) -> Seq<ManagerCall> {
        self.addr_mgr.calls()
    }

    /// The address manager.
    pub closed spec fn manager(&self) -> M {
        self.addr_mgr.manager()
    }

    /// Nobody is talked to yet, and the manager has not been called.
    pub fn new(addr_mgr: M) -> (discovery: Discovery<M>)
        ensures
            discovery.manager() == addr_mgr,
            discovery@ == DiscoveryState::initial(DEFAULT_MAX_KNOWN as nat),
            discovery@.wf(),
            discovery.calls() == Seq::<ManagerCall>::empty(),
    {
        let discovery = Discovery {
            max_known: DEFAULT_MAX_KNOWN,
            addr_mgr: AddressBook::new(addr_mgr),
            pending_nodes: VecDeque::new(),
            substreams: SubstreamTable::new(),
            err_keys: KeySet::new(),
            progress: Progress::Idle,
        };
        assert(discovery@ =~= DiscoveryState::initial(DEFAULT_MAX_KNOWN as nat));
        discovery
    }

    /// Whether a substream is open.
    pub fn contains(&self, key: SubstreamKey) -> (open: bool)
        ensures
            open == self@.substreams.contains_key(key),
    {
        self.substreams.contains(key)
    }

    /// Opens a new substream, if there is one.
    fn open(&mut self, polled: ReceiverPoll)
        requires
            old(self)@.wf(),
            old(self)@.stage is Idle,
        ensures
            final(self)@ == old(self)@.opened(polled),
            final(self)@.wf(),
            final(self).calls() == old(self).calls(),
            final(self).manager() == old(self).manager(),
    {
        let ghost before = self@;
        if let ReceiverPoll::Substream(substream) = polled {
            let key = substream.key();
            let value = SubstreamValue::new(key.direction, self.max_known, key.remote_addr);
            self.substreams.insert(key, value);
        }
        assert(self@ =~= before.opened(polled));
    }

    /// Closes the substreams that have failed.
    fn sweep(&mut self)
        requires
            old(self)@.wf(),
            old(self)@.stage is Idle,
        ensures
            final(self)@ == old(self)@.swept(),
            final(self)@.wf(),
            final(self).calls() == old(self).calls(),
            final(self).manager() == old(self).manager(),
    {
        let ghost before = self@;
        let failed = self.err_keys.drain();
        let mut i: usize = 0;
        assert(failed@.take(0).to_set() =~= Set::empty());
        assert(self.substreams@ =~= before.substreams.remove_keys(Set::empty()));
        while i < failed.len()
            invariant
                i <= failed@.len(),
                self.calls() == old(self).calls(),
                self.manager() == old(self).manager(),
                self@ == (DiscoveryState {
                    substreams: before.substreams.remove_keys(failed@.take(i as int).to_set()),
                    err_keys: Set::empty(),
                    ..before
                }),
            decreases failed@.len() - i,
        {
            let ghost so_far = self@;
            self.substreams.remove(failed[i]);
            proof {
                let longer = failed@.take(i + 1);
                assert(longer =~= failed@.take(i as int).push(failed@[i as int]));
                assert forall|key: SubstreamKey| #[trigger]
                    longer.to_set().contains(key) == (failed@.take(i as int).to_set().contains(key)
                        || key == failed@[i as int]) by {
                    if key == failed@[i as int] {
                        assert(longer[i as int] == key);
                    } else if failed@.take(i as int).contains(key) {
                        let j = choose|j: int| 0 <= j < i && failed@.take(i as int)[j] == key;
                        assert(longer[j] == key);
                    } else if longer.contains(key) {
                        let j = choose|j: int| 0 <= j < longer.len() && longer[j] == key;
                        assert(failed@.take(i as int)[j] == key);
                    }
                }
                assert(self.substreams@ =~= before.substreams.remove_keys(longer.to_set()));
            }
            i += 1;
        }
        assert(failed@.take(i as int) =~= failed@);
        assert(self@ =~= before.swept());
    }

    /// Ends the round: hands over the first list that waits, if any.
    fn finish(&mut self) -> (action: PollAction)
        requires
            old(self)@.wf(),
            old(self)@.stage is Idle,
        ensures
            old(self)@.finishes(final(self)@, action),
            final(self)@.wf(),
            final(self).calls() == old(self).calls(),
            final(self).manager() == old(self).manager(),
    {
        let ghost before = self@;
        let ghost queue = self.pending_nodes@;
        match self.pending_nodes.pop_front() {
            Some((_, nodes)) => {
                assert(queue_view(self.pending_nodes@) =~= queue_view(queue).drop_first());
                assert(self@ =~= DiscoveryState {
                    stage: Stage::Idle,
                    pending_nodes: before.pending_nodes.drop_first(),
                    ..before
                });
                PollAction::Ready(nodes)
            },
            None => PollAction::NotReady,
        }
    }

    /// Tells the last substream in `rest` what waits for it and lets it send; or
    /// ends the round.
    fn go_on_telling(&mut self, rest: Vec<SubstreamKey>) -> (action: PollAction)
        requires
            all_wf(old(self)@.substreams),
            old(self)@.err_keys.subset_of(old(self)@.substreams.dom()),
            old(self)@.stage is Idle,
            rest@.no_duplicates(),
            forall|i: int|
                0 <= i < rest@.len() ==> old(self)@.substreams.contains_key(#[trigger] rest@[i]),
            forall|key: SubstreamKey|
                #[trigger] old(self)@.substreams.contains_key(key) && !rest@.contains(key)
                    ==> old(self)@.substreams[key].announce_addrs.len() == 0,
            forall|key: SubstreamKey| #[trigger]
                old(self)@.substreams.contains_key(key) ==> !old(self)@.substreams[key].announce,
        ensures
            old(self)@.goes_on_telling(rest@, final(self)@, action),
            final(self)@.wf(),
            final(self).calls() == old(self).calls(),
            final(self).manager() == old(self).manager(),
    {
        let ghost before = self@;
        let ghost all = rest@;
        let mut rest = rest;
        match rest.pop() {
            None => self.finish(),
            Some(key) => {
                let ghost value = before.substreams[key].told();
                assert(all[all.len() - 1] == key);
                let mut next: SendAction = SendAction::PollComplete;
                if let Some(found) = self.substreams.get_mut(key) {
                    found.tell();
                    next = found.send_messages(SendEvent::Start);
                }
                self.progress = Progress::Telling { key, rest };
                proof {
                    assert(rest@ =~= all.drop_last());
                    let post = DiscoveryState {
                        stage: Stage::Telling { key, rest: all.drop_last() },
                        ..before.with(key, value.sending(SendEvent::Start))
                    };
                    assert(self@ =~= post);
                    assert(self@.to_come() =~= all);
                    assert forall|other: SubstreamKey|
                        #[trigger] self@.substreams.contains_key(other) && !rest@.contains(other)
                            implies self@.substreams[other].announce_addrs.len() == 0 by {
                        if other != key && all.contains(other) {
                            let i = choose|i: int| 0 <= i < all.len() && all[i] == other;
                            assert(rest@[i] == other);
                        }
                    }
                }
                match next {
                    SendAction::StartSend(message) => PollAction::StartSend(key, message),
                    _ => PollAction::PollComplete(key),
                }
            },
        }
    }

    /// Has the last substream in `rest` polled; or closes what has failed, puts the
    /// announced addresses forward, and goes on to tell the substreams that are
    /// left.
    fn go_on_polling(
        &mut self,
        rest: Vec<SubstreamKey>,
        announce_addrs: Vec<SocketAddr>,
        Ghost(orders): Ghost<Orders>,
    ) -> (action: PollAction)
        requires
            old(self)@.wf(),
            old(self)@.stage is Idle,
            rest@.no_duplicates(),
            forall|i: int|
                0 <= i < rest@.len() ==> old(self)@.substreams.contains_key(#[trigger] rest@[i]),
        ensures
            exists|more: Orders|
                {
                    &&& more.chance == orders.chance
                    &&& more.polled == orders.polled
                    &&& #[trigger] old(self)@.goes_on_polling(
                        rest@,
                        announce_addrs@,
                        more,
                        final(self)@,
                        action,
                    )
                },
            final(self)@.wf(),
            final(self).calls() == old(self).calls(),
            final(self).manager() == old(self).manager(),
    {
        let ghost before = self@;
        let ghost all = rest@;
        let mut rest = rest;
        match rest.pop() {
            None => {
                self.sweep();
                let ghost swept = self@;
                spread(&mut self.substreams, &announce_addrs);
                let ghost shuffles = choose|shuffles: Seq<Seq<SubstreamKey>>|
                    are_shuffles(shuffles, announce_addrs@.len(), swept.substreams.dom())
                        && self.substreams@ == #[trigger] spread_out(
                        swept.substreams,
                        announce_addrs@,
                        shuffles,
                    );
                proof {
                    law_spreading_only_adds(swept.substreams, announce_addrs@, shuffles);
                }
                assert(self@ =~= swept.spread(announce_addrs@, shuffles));
                let keys = self.substreams.keys();
                let ghost more = Orders { shuffles, told: keys@, ..orders };
                proof {
                    assert forall|i: int|
                        0 <= i < keys@.len() implies self@.substreams.contains_key(
                        #[trigger] keys@[i],
                    ) by {
                        assert(keys@.to_set().contains(keys@[i]));
                    }
                    assert forall|key: SubstreamKey| #[trigger] self@.substreams.contains_key(key)
                        implies keys@.contains(key) by {
                        assert(keys@.to_set().contains(key));
                    }
                }
                let action = self.go_on_telling(keys);
                assert(before.goes_on_polling(all, announce_addrs@, more, self@, action));
                action
            },
            Some(key) => {
                assert(all[all.len() - 1] == key);
                let mut read = true;
                if let Some(found) = self.substreams.get_mut(key) {
                    read = !found.remote_closed();
                }
                assert(self.substreams@ =~= before.substreams);
                let ghost addrs = announce_addrs@;
                self.progress = Progress::Polling { key, rest, announce_addrs };
                let action = PollAction::PollSubstream { key, read };
                proof {
                    assert(rest@ =~= all.drop_last());
                    assert(self@ =~= DiscoveryState {
                        stage: Stage::Polling { key, rest: all.drop_last(), announce_addrs: addrs },
                        ..before
                    });
                    assert(self@.to_come() =~= all);
                    assert(before.goes_on_polling(all, addrs, orders, self@, action));
                }
                action
            },
        }
    }

    /// Takes in what polling a substream gave, and lets it send.
    fn serve(
        &mut self,
        key: SubstreamKey,
        timer: TimerPoll,
        arrived: Vec<DiscoveryMessage>,
        end: StreamEnd,
    ) -> (next: SendAction)
        requires
            old(self)@.wf(),
            old(self)@.stage is Idle,
            old(self)@.substreams.contains_key(key),
        ensures
            exists|chance: Chance|
                {
                    let after = #[trigger] old(self)@.polled(
                        key,
                        timer,
                        messages_view(arrived@),
                        end,
                        chance,
                    );
                    let value = after.substreams[key];
                    &&& chance.valid()
                    &&& final(self)@ == after.with(key, value.sending(SendEvent::Start))
                    &&& next_action(value.pending_messages, SendEvent::Start, next)
                    &&& final(self).calls() == old(self).calls() + old(self)@.poll_calls(
                        key,
                        timer,
                        messages_view(arrived@),
                        chance,
                    )
                    &&& old(self)@.poll_calls(key, timer, messages_view(arrived@), chance).len()
                        == 0 ==> final(self).manager() == old(self).manager()
                },
            all_wf(final(self)@.substreams),
            forall|other: SubstreamKey| #[trigger]
                final(self)@.substreams.contains_key(other) ==> {
                    &&& final(self)@.substreams[other].announce_addrs.len() == 0
                    &&& final(self)@.substreams[other].announce ==> other == key
                },
    {
        let ghost before = self@;
        let ghost calls = self.addr_mgr.calls();
        let ghost queue = self.pending_nodes@;
        let ghost said = messages_view(arrived@);
        let ghost timed = before.substreams[key].timed(timer);
        let mut failed = false;
        let mut passed: Vec<Nodes> = Vec::new();
        let mut next: SendAction = SendAction::PollComplete;
        let ghost mut received = timed;
        if let Some(value) = self.substreams.get_mut(key) {
            if value.check_timer(timer).is_err() {
                failed = true;
            }
            match value.receive_messages(arrived, end, &mut self.addr_mgr) {
                Ok(Some(nodes_list)) => {
                    passed = nodes_list;
                },
                Ok(None) => {},
                Err(_) => {
                    failed = true;
                },
            }
            proof {
                received = value@;
            }
            next = value.send_messages(SendEvent::Start);
        }
        let ghost chance = if timed.remote_closed {
            Chance { addrs: Seq::empty(), picks: Seq::empty() }
        } else {
            choose|chance: Chance|
                {
                    &&& chance.valid()
                    &&& received == #[trigger] timed.received(said, end, chance)
                    &&& self.addr_mgr.calls() == calls + timed.calls_all(said, chance)
                    &&& timed.calls_all(said, chance).len() == 0 ==> self.addr_mgr
                        == old(self).addr_mgr
                    &&& end !is Failed ==> lists_view(passed@) == timed.passed_on(said, chance)
                }
        };
        if failed {
            self.err_keys.insert(key);
        }
        enqueue(&mut self.pending_nodes, key, passed);
        proof {
            let after = before.polled(key, timer, said, end, chance);
            lemma_receiving_leaves_the_rest(timed, said, chance);
            assert(self@ =~= after.with(key, received.sending(SendEvent::Start)));
        }
        next
    }

    /// One step of sending the messages of one substream.
    fn send(&mut self, key: SubstreamKey, event: SendEvent) -> (next: SendAction)
        requires
            all_wf(old(self)@.substreams),
            old(self)@.err_keys.subset_of(old(self)@.substreams.dom()),
            old(self)@.substreams.contains_key(key),
        ensures
            ({
                let value = old(self)@.substreams[key];
                &&& final(self)@ == old(self)@.with(key, value.sending(event)).noted(
                    key,
                    send_fails(event),
                )
                &&& next_action(value.pending_messages, event, next)
            }),
            final(self).calls() == old(self).calls(),
            final(self).manager() == old(self).manager(),
    {
        let ghost before = self@;
        let mut next: SendAction = SendAction::PollComplete;
        if let Some(value) = self.substreams.get_mut(key) {
            next = value.send_messages(event);
        }
        if let SendAction::Done(Err(_)) = &next {
            self.err_keys.insert(key);
        }
        proof {
            let value = before.substreams[key];
            assert(self@ =~= before.with(key, value.sending(event)).noted(key, send_fails(event)));
        }
        next
    }

    /// Takes up the address of the peer on a substream, where it is due to be
    /// announced.
    fn take_announcement(&mut self, key: SubstreamKey) -> (due: Option<SocketAddr>)
        requires
            old(self)@.substreams.contains_key(key),
        ensures
            ({
                let value = old(self)@.substreams[key];
                &&& final(self)@ == old(self)@.with(key, value.announced())
                &&& due == (if value.announce {
                    Some(value.remote_addr)
                } else {
                    None
                })
            }),
            final(self).calls() == old(self).calls(),
            final(self).manager() == old(self).manager(),
    {
        let ghost before = self@;
        let mut due: Option<SocketAddr> = None;
        if let Some(value) = self.substreams.get_mut(key) {
            if value.take_announcement() {
                due = Some(value.remote_addr());
            }
        }
        assert(self@ =~= before.with(key, before.substreams[key].announced()));
        due
    }

    /// Begins a round.
    fn begin(&mut self, polled: ReceiverPoll) -> (action: PollAction)
        requires
            old(self)@.wf(),
            old(self)@.stage is Idle,
        ensures
            exists|orders: Orders| #[trigger]
                old(self)@.steps(PollEvent::Receiver(polled), orders, final(self)@, action),
            final(self)@.wf(),
            final(self).calls() == old(self).calls(),
            final(self).manager() == old(self).manager(),
    {
        let ghost before = self@;
        let ghost unset = Orders::unset();
        if let ReceiverPoll::Failed = polled {
            let action = PollAction::Failed(ReceiverError);
            assert(before.steps(PollEvent::Receiver(polled), unset, self@, action));
            return action;
        }
        self.open(polled);
        let keys = self.substreams.keys();
        let ghost opened = self@;
        let ghost orders = Orders { polled: keys@, ..unset };
        proof {
            assert forall|i: int| 0 <= i < keys@.len() implies opened.substreams.contains_key(
                #[trigger] keys@[i],
            ) by {
                assert(keys@.to_set().contains(keys@[i]));
            }
        }
        let announce_addrs: Vec<SocketAddr> = Vec::new();
        assert(announce_addrs@ =~= Seq::empty());
        let action = self.go_on_polling(keys, announce_addrs, Ghost(orders));
        proof {
            let more = choose|more: Orders|
                {
                    &&& more.chance == orders.chance
                    &&& more.polled == orders.polled
                    &&& #[trigger] opened.goes_on_polling(
                        keys@,
                        announce_addrs@,
                        more,
                        self@,
                        action,
                    )
                };
            assert(before.steps(PollEvent::Receiver(polled), more, self@, action));
        }
        action
    }

    /// The substream `key` was polled.
    fn polled(
        &mut self,
        key: SubstreamKey,
        rest: Vec<SubstreamKey>,
        announce_addrs: Vec<SocketAddr>,
        timer: TimerPoll,
        arrived: Vec<DiscoveryMessage>,
        end: StreamEnd,
    ) -> (action: PollAction)
        requires
            old(self)@.stage is Idle,
            old(self)@.at(
                Stage::Polling { key, rest: rest@, announce_addrs: announce_addrs@ },
            ).wf(),
        ensures
            exists|orders: Orders|
                {
                    &&& #[trigger] old(self)@.at(
                        Stage::Polling { key, rest: rest@, announce_addrs: announce_addrs@ },
                    ).steps(
                        PollEvent::Substream { timer, arrived, end },
                        orders,
                        final(self)@,
                        action,
                    )
                    &&& final(self).calls() == old(self).calls() + old(self)@.at(
                        Stage::Polling { key, rest: rest@, announce_addrs: announce_addrs@ },
                    ).step_calls(PollEvent::Substream { timer, arrived, end }, orders)
                },
            final(self).calls() == old(self).calls() ==> final(self).manager() == old(
                self,
            ).manager(),
            final(self)@.wf(),
    {
        let ghost idle = self@;
        let ghost calls = self.calls();
        let ghost stage = Stage::Polling { key, rest: rest@, announce_addrs: announce_addrs@ };
        let ghost before = idle.at(stage);
        let ghost event = PollEvent::Substream { timer, arrived, end };
        let ghost rest_keys = rest@;
        let ghost addrs = announce_addrs@;
        assert(before.to_come()[rest@.len() as int] == key);
        let next = self.serve(key, timer, arrived, end);
        let ghost served = self@;
        self.progress = Progress::Sending { key, rest, announce_addrs };
        let action = match next {
            SendAction::StartSend(message) => PollAction::StartSend(key, message),
            _ => PollAction::PollComplete(key),
        };
        proof {
            let said = messages_view(arrived@);
            let chance = choose|chance: Chance|
                {
                    let after = #[trigger] idle.polled(key, timer, said, end, chance);
                    let value = after.substreams[key];
                    &&& chance.valid()
                    &&& served == after.with(key, value.sending(SendEvent::Start))
                    &&& next_action(value.pending_messages, SendEvent::Start, next)
                    &&& self.calls() == calls + idle.poll_calls(key, timer, said, chance)
                    &&& idle.poll_calls(key, timer, said, chance).len() == 0 ==> self.manager()
                        == old(self).manager()
                };
            let orders = Orders { chance, ..Orders::unset() };
            let after = before.polled(key, timer, said, end, chance);
            let value = after.substreams[key];
            assert(self@ =~= after.with(key, value.sending(SendEvent::Start)).at(
                Stage::Sending { key, rest: rest_keys, announce_addrs: addrs },
            ));
            assert(before.steps(event, orders, self@, action));
            assert(self@.to_come() =~= before.to_come());
            assert forall|i: int|
                0 <= i < self@.to_come().len() implies self@.substreams.contains_key(
                #[trigger] self@.to_come()[i],
            ) by {
                assert(before.substreams.contains_key(before.to_come()[i]));
            }
        }
        action
    }

    /// The substream `key`, which has been polled, made a step in sending.
    fn sent(
        &mut self,
        key: SubstreamKey,
        rest: Vec<SubstreamKey>,
        announce_addrs: Vec<SocketAddr>,
        event: SendEvent,
    ) -> (action: PollAction)
        requires
            old(self)@.stage is Idle,
            old(self)@.at(
                Stage::Sending { key, rest: rest@, announce_addrs: announce_addrs@ },
            ).wf(),
        ensures
            exists|orders: Orders| #[trigger]
                old(self)@.at(
                    Stage::Sending { key, rest: rest@, announce_addrs: announce_addrs@ },
                ).steps(PollEvent::Send(event), orders, final(self)@, action),
            final(self)@.wf(),
            final(self).calls() == old(self).calls(),
            final(self).manager() == old(self).manager(),
    {
        let ghost before = self@.at(
            Stage::Sending { key, rest: rest@, announce_addrs: announce_addrs@ },
        );
        let ghost value = before.substreams[key];
        let ghost rest_keys = rest@;
        let ghost addrs = announce_addrs@;
        proof {
            lemma_current_and_rest(before, key, rest@);
        }
        let next = self.send(key, event);
        let ghost after = self@;
        match next {
            SendAction::Done(_) => {
                let mut announce_addrs = announce_addrs;
                if let Some(addr) = self.take_announcement(key) {
                    announce_addrs.push(addr);
                }
                let ghost after = self@;
                let action = self.go_on_polling(rest, announce_addrs, Ghost(Orders::unset()));
                proof {
                    let more = choose|more: Orders| #[trigger]
                        after.goes_on_polling(rest_keys, announce_addrs@, more, self@, action);
                    let stepped = before.with(key, value.sending(event)).noted(
                        key,
                        send_fails(event),
                    ).with(key, value.sending(event).announced());
                    lemma_polling_forgets_stage(
                        stepped,
                        after,
                        rest_keys,
                        announce_addrs@,
                        more,
                        self@,
                        action,
                    );
                    assert(before.steps(PollEvent::Send(event), more, self@, action));
                }
                action
            },
            SendAction::StartSend(message) => {
                self.progress = Progress::Sending { key, rest, announce_addrs };
                let action = PollAction::StartSend(key, message);
                proof {
                    assert(self@ =~= after.at(before.stage));
                    assert(self@.to_come() =~= before.to_come());
                    assert(before.steps(PollEvent::Send(event), Orders::unset(), self@, action));
                }
                action
            },
            SendAction::PollComplete => {
                self.progress = Progress::Sending { key, rest, announce_addrs };
                let action = PollAction::PollComplete(key);
                proof {
                    assert(self@ =~= after.at(before.stage));
                    assert(self@.to_come() =~= before.to_come());
                    assert(before.steps(PollEvent::Send(event), Orders::unset(), self@, action));
                }
                action
            },
        }
    }

    /// The substream `key`, which has been told, made a step in sending.
    fn told(&mut self, key: SubstreamKey, rest: Vec<SubstreamKey>, event: SendEvent) -> (action:
        PollAction)
        requires
            old(self)@.stage is Idle,
            old(self)@.at(Stage::Telling { key, rest: rest@ }).wf(),
        ensures
            exists|orders: Orders| #[trigger]
                old(self)@.at(Stage::Telling { key, rest: rest@ }).steps(
                    PollEvent::Send(event),
                    orders,
                    final(self)@,
                    action,
                ),
            final(self)@.wf(),
            final(self).calls() == old(self).calls(),
            final(self).manager() == old(self).manager(),
    {
        let ghost before = self@.at(Stage::Telling { key, rest: rest@ });
        let ghost rest_keys = rest@;
        proof {
            lemma_current_and_rest(before, key, rest@);
        }
        let next = self.send(key, event);
        let ghost after = self@;
        match next {
            SendAction::Done(_) => {
                let action = self.go_on_telling(rest);
                proof {
                    assert(before.steps(PollEvent::Send(event), Orders::unset(), self@, action));
                }
                action
            },
            SendAction::StartSend(message) => {
                self.progress = Progress::Telling { key, rest };
                let action = PollAction::StartSend(key, message);
                proof {
                    assert(self@ =~= after.at(before.stage));
                    assert(self@.to_come() =~= before.to_come());
                    assert(before.steps(PollEvent::Send(event), Orders::unset(), self@, action));
                }
                action
            },
            SendAction::PollComplete => {
                self.progress = Progress::Telling { key, rest };
                let action = PollAction::PollComplete(key);
                proof {
                    assert(self@ =~= after.at(before.stage));
                    assert(self@.to_come() =~= before.to_come());
                    assert(before.steps(PollEvent::Send(event), Orders::unset(), self@, action));
                }
                action
            },
        }
    }

    /// One step of a round.
    ///
    /// A round begins with what polling for a new substream gave. Each step says
    /// what is to be done next, and what comes of that is the event of the next
    /// step. In a round every open substream is polled, and sends what waits on it;
    /// those that failed are closed; the addresses of the peers whose timers fired are
    /// each put forward to two of the substreams that are left, which may be the peer's
    /// own; every substream announces what was put forward to it, and sends that; and
    /// the first list of nodes that waits is passed on.
    pub fn poll(&mut self, event: PollEvent) -> (action: PollAction)
        requires
            old(self)@.wf(),
            old(self)@.expects(event),
        ensures
            exists|orders: Orders|
                {
                    &&& #[trigger] old(self)@.steps(event, orders, final(self)@, action)
                    &&& final(self).calls() == old(self).calls() + old(self)@.step_calls(
                        event,
                        orders,
                    )
                },
            final(self).calls() == old(self).calls() ==> final(self).manager() == old(
                self,
            ).manager(),
            forall|next: PollEvent|
                #[trigger] final(self)@.expects(next) == may_come_of(next, action),
            final(self)@.wf(),
    {
        let ghost before = self@;
        let ghost calls = self.calls();
        let mut progress = Progress::Idle;
        std::mem::swap(&mut progress, &mut self.progress);
        assert(self@ =~= before.at(Stage::Idle));
        assert(self@.at(before.stage) =~= before);
        assert(calls + Seq::<ManagerCall>::empty() =~= calls);
        let action = match (progress, event) {
            (Progress::Idle, PollEvent::Receiver(polled)) => self.begin(polled),
            (
                Progress::Polling { key, rest, announce_addrs },
                PollEvent::Substream { timer, arrived, end },
            ) => self.polled(key, rest, announce_addrs, timer, arrived, end),
            (
                Progress::Sending { key, rest, announce_addrs },
                PollEvent::Send(event),
            ) => self.sent(key, rest, announce_addrs, event),
            (Progress::Telling { key, rest }, PollEvent::Send(event)) => self.told(
                key,
                rest,
                event,
            ),
            _ => PollAction::NotReady,
        };
        proof {
            let orders = choose|orders: Orders|
                {
                    &&& #[trigger] before.steps(event, orders, self@, action)
                    &&& self.calls() == calls + before.step_calls(event, orders)
                };
            lemma_action_settles_event(before, event, orders, self@, action);
        }
        action
    }
}

} // verus!
