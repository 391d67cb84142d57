use std::cell::RefCell;
use std::rc::Rc;

use discovery::discovery::{offer, spread};
use discovery::round::ReceiverError;
use discovery::substream::SendAction;
use discovery::table::{KeySet, SubstreamTable};
use discovery::{
    AddrRaw, AddressManager, Direction, Discovery, DiscoveryMessage, Node, Nodes, PollAction,
    PollEvent, ReceiverPoll, SendEvent, SocketAddr, StreamEnd, Substream, SubstreamKey,
    SubstreamValue, TimerPoll,
};

struct Manager {
    reports: Rc<RefCell<Vec<(SocketAddr, u32)>>>,
}

impl AddressManager for Manager {
    fn misbehave(&mut self, addr: SocketAddr, kind: u32) {
        self.reports.borrow_mut().push((addr, kind));
    }

    fn get_random(&mut self, n: usize) -> Vec<SocketAddr> {
        assert_eq!(n, 2500);
        vec![v4(1000), v4(1001)]
    }
}

fn v4(ip: u32) -> SocketAddr {
    SocketAddr::V4 { ip, port: 8115 }
}

fn substream(n: u32, direction: Direction) -> Substream {
    Substream { remote_addr: v4(n), direction, stream_id: n }
}

fn nodes(announce: bool, ips: &[u32]) -> Nodes {
    Nodes {
        announce,
        items: ips
            .iter()
            .map(|ip| Node { node_id: None, addresses: vec![AddrRaw::from(v4(*ip))] })
            .collect(),
    }
}

fn say(nodes: Nodes) -> DiscoveryMessage {
    DiscoveryMessage::Nodes(nodes)
}

fn ask() -> DiscoveryMessage {
    DiscoveryMessage::GetNodes { version: 0, count: 1000 }
}

fn fresh() -> (Discovery<Manager>, Rc<RefCell<Vec<(SocketAddr, u32)>>>) {
    let reports = Rc::new(RefCell::new(vec![]));
    (Discovery::new(Manager { reports: reports.clone() }), reports)
}

/// What happens on a substream when it is polled in a round.
struct Happens {
    id: u32,
    timer: TimerPoll,
    arrived: Vec<DiscoveryMessage>,
    end: StreamEnd,
}

fn happens(id: u32, arrived: Vec<DiscoveryMessage>) -> Happens {
    Happens { id, timer: TimerPoll::NotReady, arrived, end: StreamEnd::NotReady }
}

/// What a round did.
struct Round {
    polled: Vec<u32>,
    read: Vec<u32>,
    sent: Vec<(u32, DiscoveryMessage)>,
    end: PollAction,
}

/// Runs a round on streams that take every message, except that the streams in
/// `failing` fail when they are asked to write out what they have taken.
fn round(
    discovery: &mut Discovery<Manager>,
    opened: ReceiverPoll,
    what: Vec<Happens>,
    failing: &[u32],
) -> Round {
    let mut what = what;
    let mut polled = vec![];
    let mut read_from = vec![];
    let mut sent = vec![];
    let mut event = PollEvent::Receiver(opened);
    loop {
        event = match discovery.poll(event) {
            PollAction::PollSubstream { key, read } => {
                let id = key.substream_id;
                polled.push(id);
                if read {
                    read_from.push(id);
                }
                match what.iter().position(|h| h.id == id) {
                    Some(i) => {
                        let h = what.remove(i);
                        PollEvent::Substream { timer: h.timer, arrived: h.arrived, end: h.end }
                    }
                    None => PollEvent::Substream {
                        timer: TimerPoll::NotReady,
                        arrived: vec![],
                        end: StreamEnd::NotReady,
                    },
                }
            }
            PollAction::StartSend(key, message) => {
                sent.push((key.substream_id, message));
                PollEvent::Send(SendEvent::Accepted)
            }
            PollAction::PollComplete(key) => {
                if failing.contains(&key.substream_id) {
                    PollEvent::Send(SendEvent::CompleteFailed)
                } else {
                    PollEvent::Send(SendEvent::Completed)
                }
            }
            end => {
                polled.sort();
                return Round { polled, read: read_from, sent, end };
            }
        }
    }
}

fn open(discovery: &mut Discovery<Manager>, n: u32, direction: Direction) -> Round {
    round(discovery, ReceiverPoll::Substream(substream(n, direction)), vec![], &[])
}

fn quiet(discovery: &mut Discovery<Manager>) -> Round {
    round(discovery, ReceiverPoll::NotReady, vec![], &[])
}

fn key(n: u32, direction: Direction) -> SubstreamKey {
    substream(n, direction).key()
}

#[test]
fn nothing_to_do() {
    let (mut discovery, _) = fresh();
    let done = quiet(&mut discovery);
    assert_eq!(done.end, PollAction::NotReady);
    assert!(done.polled.is_empty());
}

#[test]
fn no_more_substreams_is_an_error() {
    let (mut discovery, _) = fresh();
    let done = round(&mut discovery, ReceiverPoll::Failed, vec![], &[]);
    assert_eq!(done.end, PollAction::Failed(ReceiverError));
}

#[test]
fn opened_substream_is_polled_and_asks() {
    let (mut discovery, _) = fresh();
    let done = open(&mut discovery, 1, Direction::Outbound);
    assert_eq!(done.polled, vec![1]);
    assert_eq!(done.sent, vec![(1, ask())]);
    assert!(discovery.contains(key(1, Direction::Outbound)));
    assert!(!discovery.contains(key(1, Direction::Inbound)));
    assert!(!discovery.contains(key(2, Direction::Outbound)));
}

#[test]
fn everyone_is_polled_once() {
    let (mut discovery, _) = fresh();
    for n in 1..8 {
        open(&mut discovery, n, Direction::Inbound);
    }
    let done = quiet(&mut discovery);
    assert_eq!(done.polled, vec![1, 2, 3, 4, 5, 6, 7]);
}

#[test]
fn ipv6_peers_are_kept_apart() {
    let (mut discovery, _) = fresh();
    let mut keys = vec![];
    for scope_id in 0..3 {
        let remote_addr = SocketAddr::V6 { ip: 1, port: 2, flowinfo: 0, scope_id };
        let substream = Substream { remote_addr, direction: Direction::Inbound, stream_id: 1 };
        round(&mut discovery, ReceiverPoll::Substream(substream), vec![], &[]);
        keys.push(substream.key());
    }
    assert_eq!(quiet(&mut discovery).polled, vec![1, 1, 1]);
    for key in keys {
        assert!(discovery.contains(key));
    }
}

#[test]
fn lists_are_passed_on_one_each_round() {
    let (mut discovery, _) = fresh();
    open(&mut discovery, 1, Direction::Inbound);
    let arrived = vec![say(nodes(true, &[5])), say(nodes(false, &[6])), say(nodes(true, &[7]))];
    let done = round(&mut discovery, ReceiverPoll::NotReady, vec![happens(1, arrived)], &[]);
    assert_eq!(done.end, PollAction::Ready(nodes(true, &[5])));
    assert_eq!(quiet(&mut discovery).end, PollAction::Ready(nodes(false, &[6])));
    assert_eq!(quiet(&mut discovery).end, PollAction::Ready(nodes(true, &[7])));
    assert_eq!(quiet(&mut discovery).end, PollAction::NotReady);
}

#[test]
fn question_is_answered_in_the_same_round() {
    let (mut discovery, reports) = fresh();
    open(&mut discovery, 1, Direction::Inbound);
    let done =
        round(&mut discovery, ReceiverPoll::NotReady, vec![happens(1, vec![ask(), ask()])], &[]);
    assert_eq!(done.sent, vec![(1, say(nodes(false, &[1000, 1001])))]);
    assert_eq!(*reports.borrow(), vec![(v4(1), 111)]);
}

#[test]
fn failed_substreams_are_closed() {
    let (mut discovery, _) = fresh();
    for n in 1..6 {
        open(&mut discovery, n, Direction::Inbound);
    }
    let what = vec![
        Happens { id: 1, timer: TimerPoll::Failed, arrived: vec![], end: StreamEnd::NotReady },
        Happens {
            id: 2,
            timer: TimerPoll::NotReady,
            arrived: vec![say(nodes(true, &[9]))],
            end: StreamEnd::Failed,
        },
    ];
    let done = round(&mut discovery, ReceiverPoll::NotReady, what, &[3]);
    assert_eq!(done.end, PollAction::NotReady);
    for n in 1..6 {
        assert_eq!(discovery.contains(key(n, Direction::Inbound)), n > 3);
    }
    assert_eq!(quiet(&mut discovery).polled, vec![4, 5]);
}

#[test]
fn closed_stream_is_not_read() {
    let (mut discovery, _) = fresh();
    open(&mut discovery, 1, Direction::Inbound);
    let what = vec![Happens {
        id: 1,
        timer: TimerPoll::NotReady,
        arrived: vec![],
        end: StreamEnd::Closed,
    }];
    assert_eq!(round(&mut discovery, ReceiverPoll::NotReady, what, &[]).read, vec![1]);
    let done = quiet(&mut discovery);
    assert_eq!(done.polled, vec![1]);
    assert!(done.read.is_empty());
    assert!(discovery.contains(key(1, Direction::Inbound)));
}

#[test]
fn same_key_replaces_the_substream() {
    let (mut discovery, _) = fresh();
    open(&mut discovery, 1, Direction::Outbound);
    let done = open(&mut discovery, 1, Direction::Outbound);
    assert_eq!(done.polled, vec![1]);
    assert_eq!(done.sent, vec![(1, ask())]);
}

#[test]
fn address_is_told_to_two_others_at_most() {
    let (mut discovery, _) = fresh();
    for n in 1..6 {
        open(&mut discovery, n, Direction::Inbound);
    }
    let fired = || {
        vec![Happens {
            id: 1,
            timer: TimerPoll::Fired,
            arrived: vec![],
            end: StreamEnd::NotReady,
        }]
    };
    let mut reached = vec![];
    for _ in 0..200 {
        let done = round(&mut discovery, ReceiverPoll::NotReady, fired(), &[]);
        assert_eq!(done.sent.len(), 2);
        assert_ne!(done.sent[0].0, done.sent[1].0);
        for (n, message) in done.sent {
            assert_eq!(message, say(nodes(true, &[1])));
            if !reached.contains(&n) {
                reached.push(n);
            }
        }
    }
    // Who is told is left to chance: sooner or later it is everyone.
    reached.sort();
    assert_eq!(reached, vec![1, 2, 3, 4, 5]);
}

#[test]
fn address_is_announced_once_each_time_that_the_timer_fires() {
    let (mut discovery, _) = fresh();
    open(&mut discovery, 1, Direction::Inbound);
    for _ in 0..3 {
        let what = vec![Happens {
            id: 1,
            timer: TimerPoll::Fired,
            arrived: vec![],
            end: StreamEnd::NotReady,
        }];
        let done = round(&mut discovery, ReceiverPoll::NotReady, what, &[]);
        assert_eq!(done.sent, vec![(1, say(nodes(true, &[1])))]);
        for _ in 0..2 {
            assert_eq!(quiet(&mut discovery).sent, vec![]);
        }
    }
}

#[test]
fn address_of_a_failed_peer_is_told_all_the_same() {
    let (mut discovery, _) = fresh();
    open(&mut discovery, 1, Direction::Inbound);
    open(&mut discovery, 2, Direction::Inbound);
    let what = vec![Happens {
        id: 1,
        timer: TimerPoll::Fired,
        arrived: vec![],
        end: StreamEnd::Failed,
    }];
    let done = round(&mut discovery, ReceiverPoll::NotReady, what, &[]);
    assert_eq!(done.sent, vec![(2, say(nodes(true, &[1])))]);
    assert!(!discovery.contains(key(1, Direction::Inbound)));
}

#[test]
fn substream_that_fails_late_is_closed_in_the_next_round() {
    let (mut discovery, _) = fresh();
    open(&mut discovery, 1, Direction::Inbound);
    let mut completions = 0;
    let mut event = PollEvent::Receiver(ReceiverPoll::NotReady);
    loop {
        event = match discovery.poll(event) {
            PollAction::PollSubstream { .. } => PollEvent::Substream {
                timer: TimerPoll::NotReady,
                arrived: vec![],
                end: StreamEnd::NotReady,
            },
            PollAction::PollComplete(_) => {
                completions += 1;
                if completions == 1 {
                    PollEvent::Send(SendEvent::Completed)
                } else {
                    PollEvent::Send(SendEvent::CompleteFailed)
                }
            }
            PollAction::NotReady => break,
            other => panic!("{:?}", other),
        }
    }
    assert_eq!(completions, 2);
    assert!(discovery.contains(key(1, Direction::Inbound)));
    assert_eq!(quiet(&mut discovery).polled, vec![1]);
    assert!(!discovery.contains(key(1, Direction::Inbound)));
}

#[test]
fn refused_message_is_kept_for_the_next_round() {
    let (mut discovery, _) = fresh();
    let opened = ReceiverPoll::Substream(substream(1, Direction::Outbound));
    let mut event = PollEvent::Receiver(opened);
    let mut refused = 0;
    loop {
        event = match discovery.poll(event) {
            PollAction::PollSubstream { .. } => PollEvent::Substream {
                timer: TimerPoll::NotReady,
                arrived: vec![],
                end: StreamEnd::NotReady,
            },
            PollAction::StartSend(_, message) => {
                refused += 1;
                PollEvent::Send(SendEvent::Refused(message))
            }
            PollAction::NotReady => break,
            other => panic!("{:?}", other),
        }
    }
    // It is tried once when the substream is polled, and once when it is told.
    assert_eq!(refused, 2);
    assert_eq!(quiet(&mut discovery).sent, vec![(1, ask())]);
}

fn drain(value: &mut SubstreamValue) -> Vec<DiscoveryMessage> {
    let mut sent = vec![];
    let mut event = SendEvent::Start;
    while let SendAction::StartSend(message) = value.send_messages(event) {
        sent.push(message);
        event = SendEvent::Accepted;
    }
    sent
}

#[test]
fn offer_goes_to_the_first_two_in_order() {
    let mut table = SubstreamTable::new();
    let keys: Vec<SubstreamKey> = (1..4).map(|n| key(n, Direction::Inbound)).collect();
    for key in &keys {
        table.insert(*key, SubstreamValue::new(Direction::Inbound, 10, key.remote_addr));
    }
    offer(&mut table, v4(77), &vec![keys[2], keys[0], keys[1]]);
    for (i, key) in keys.iter().enumerate() {
        let value = table.get_mut(*key).unwrap();
        value.tell();
        let told = drain(value);
        if i == 1 {
            assert!(told.is_empty());
        } else {
            assert_eq!(told, vec![say(nodes(true, &[77]))]);
        }
    }
}

#[test]
fn spread_with_one_substream_reaches_it() {
    let mut table = SubstreamTable::new();
    let only = key(1, Direction::Outbound);
    table.insert(only, SubstreamValue::new(Direction::Inbound, 10, only.remote_addr));
    spread(&mut table, &vec![v4(5), v4(6)]);
    let value = table.get_mut(only).unwrap();
    value.tell();
    assert_eq!(drain(value), vec![say(nodes(true, &[5, 6]))]);
}

#[test]
fn table_of_substreams() {
    let mut table = SubstreamTable::new();
    assert!(table.keys().is_empty());
    for n in 1..4 {
        table.insert(
            key(n, Direction::Inbound),
            SubstreamValue::new(Direction::Inbound, 10, v4(n)),
        );
    }
    table.remove(key(2, Direction::Inbound));
    table.remove(key(3, Direction::Outbound));
    assert!(table.contains(key(1, Direction::Inbound)));
    assert!(!table.contains(key(2, Direction::Inbound)));
    assert!(table.contains(key(3, Direction::Inbound)));
    let mut ids: Vec<u32> = table.keys().iter().map(|key| key.substream_id).collect();
    ids.sort();
    assert_eq!(ids, vec![1, 3]);
    assert!(table.get_mut(key(2, Direction::Inbound)).is_none());
}

#[test]
fn set_of_keys() {
    let mut set = KeySet::new();
    let one = key(1, Direction::Inbound);
    let other = key(1, Direction::Outbound);
    set.insert(one);
    set.insert(other);
    set.insert(one);
    let drained = set.drain();
    assert_eq!(drained.len(), 2);
    assert!(drained.contains(&one) && drained.contains(&other));
    assert!(set.drain().is_empty());
}
