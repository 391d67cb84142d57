use std::cell::RefCell;
use std::rc::Rc;

use discovery::addr::AddressBook;
use discovery::random::{overwrite, sample};
use discovery::substream::{SendAction, StreamError, TimerError};
use discovery::{
    AddrRaw, AddressManager, Direction, DiscoveryMessage, Node, Nodes, SendEvent, SocketAddr,
    StreamEnd, Substream, SubstreamKey, SubstreamValue, TimerPoll,
};

#[derive(Default)]
struct Log {
    reports: Vec<(SocketAddr, u32)>,
    asked: Vec<usize>,
}

struct Manager {
    log: Rc<RefCell<Log>>,
    addrs: Vec<SocketAddr>,
}

impl AddressManager for Manager {
    fn misbehave(&mut self, addr: SocketAddr, kind: u32) {
        self.log.borrow_mut().reports.push((addr, kind));
    }

    fn get_random(&mut self, n: usize) -> Vec<SocketAddr> {
        self.log.borrow_mut().asked.push(n);
        self.addrs.clone()
    }
}

fn v4(ip: u32) -> SocketAddr {
    SocketAddr::V4 { ip, port: 8115 }
}

fn raw(ip: u32) -> AddrRaw {
    AddrRaw::from(v4(ip))
}

fn manager(n: u32) -> (AddressBook<Manager>, Rc<RefCell<Log>>) {
    let log = Rc::new(RefCell::new(Log::default()));
    let addrs = (0..n).map(v4).collect();
    (AddressBook::new(Manager { log: log.clone(), addrs }), log)
}

fn ask() -> DiscoveryMessage {
    DiscoveryMessage::GetNodes { version: 0, count: 1000 }
}

fn nodes(announce: bool, ips: &[u32]) -> Nodes {
    Nodes {
        announce,
        items: ips
            .iter()
            .map(|ip| Node { node_id: None, addresses: vec![raw(*ip)] })
            .collect(),
    }
}

fn list(announce: bool, len: u32) -> Nodes {
    nodes(announce, &(0..len).collect::<Vec<_>>())
}

fn inbound() -> SubstreamValue {
    SubstreamValue::new(Direction::Inbound, 5000, v4(99))
}

/// Sends everything and tells what was sent.
fn drain(value: &mut SubstreamValue) -> Vec<DiscoveryMessage> {
    let mut sent = vec![];
    let mut event = SendEvent::Start;
    loop {
        match value.send_messages(event) {
            SendAction::StartSend(message) => {
                sent.push(message);
                event = SendEvent::Accepted;
            }
            SendAction::PollComplete => event = SendEvent::Completed,
            SendAction::Done(done) => {
                assert_eq!(done, Ok(()));
                return sent;
            }
        }
    }
}

#[test]
fn key_of_a_substream() {
    let substream = Substream { remote_addr: v4(5), direction: Direction::Outbound, stream_id: 3 };
    let key = SubstreamKey { remote_addr: v4(5), direction: Direction::Outbound, substream_id: 3 };
    assert_eq!(substream.key(), key);
}

#[test]
fn whoever_opens_asks() {
    let mut value = SubstreamValue::new(Direction::Outbound, 5000, v4(1));
    assert_eq!(drain(&mut value), vec![ask()]);
    assert_eq!(drain(&mut inbound()), vec![]);
}

#[test]
fn fired_timer_makes_announce() {
    let mut value = inbound();
    assert_eq!(value.check_timer(TimerPoll::NotReady), Ok(()));
    assert!(!value.take_announcement());
    assert_eq!(value.check_timer(TimerPoll::Failed), Err(TimerError));
    assert!(!value.take_announcement());
    assert_eq!(value.check_timer(TimerPoll::Fired), Ok(()));
    assert_eq!(value.check_timer(TimerPoll::NotReady), Ok(()));
    assert!(value.take_announcement());
    assert!(!value.take_announcement());
    assert_eq!(value.remote_addr(), v4(99));
}

#[test]
fn refused_message_is_sent_first_next_time() {
    let (mut book, _) = manager(1);
    let mut value = SubstreamValue::new(Direction::Outbound, 5000, v4(1));
    assert_eq!(value.handle_message(ask(), &mut book), Ok(None));
    let first = match value.send_messages(SendEvent::Start) {
        SendAction::StartSend(message) => message,
        other => panic!("{:?}", other),
    };
    assert_eq!(first, ask());
    assert_eq!(value.send_messages(SendEvent::Refused(first)), SendAction::Done(Ok(())));
    assert_eq!(
        drain(&mut value),
        vec![ask(), DiscoveryMessage::Nodes(nodes(false, &[0]))]
    );
}

#[test]
fn failures_of_the_stream_are_reported() {
    let mut value = SubstreamValue::new(Direction::Outbound, 5000, v4(1));
    assert_eq!(value.send_messages(SendEvent::Start), SendAction::StartSend(ask()));
    assert_eq!(value.send_messages(SendEvent::SendFailed), SendAction::Done(Err(StreamError)));
    // The message over which the stream failed is gone.
    assert_eq!(value.send_messages(SendEvent::Start), SendAction::PollComplete);
    assert_eq!(
        value.send_messages(SendEvent::CompleteFailed),
        SendAction::Done(Err(StreamError))
    );
}

#[test]
fn question_is_answered_once() {
    let (mut book, log) = manager(3);
    let mut value = inbound();
    assert_eq!(value.handle_message(ask(), &mut book), Ok(None));
    assert_eq!(value.handle_message(ask(), &mut book), Ok(None));
    assert_eq!(log.borrow().asked, vec![2500]);
    assert_eq!(log.borrow().reports, vec![(v4(99), 111)]);
    assert_eq!(
        drain(&mut value),
        vec![DiscoveryMessage::Nodes(nodes(false, &[0, 1, 2]))]
    );
}

#[test]
fn long_answer_is_cut_down_to_a_sample() {
    let (mut book, _) = manager(2500);
    let mut value = inbound();
    assert_eq!(value.handle_message(ask(), &mut book), Ok(None));
    let sent = drain(&mut value);
    assert_eq!(sent.len(), 1);
    let items = match &sent[0] {
        DiscoveryMessage::Nodes(nodes) => {
            assert!(!nodes.announce);
            nodes.items.clone()
        }
        other => panic!("{:?}", other),
    };
    assert_eq!(items.len(), 1000);
    let all: Vec<AddrRaw> = (0..2500).map(raw).collect();
    let first: Vec<AddrRaw> = (0..1000).map(raw).collect();
    let mut kept = vec![];
    for item in items {
        assert_eq!(item.node_id, None);
        assert_eq!(item.addresses.len(), 1);
        assert!(all.contains(&item.addresses[0]));
        kept.push(item.addresses[0]);
    }
    assert_ne!(kept, first);
    // No address is drawn twice.
    for (i, addr) in kept.iter().enumerate() {
        assert!(!kept[..i].contains(addr));
    }
}

#[test]
fn overwriting_puts_the_last_in_the_place_picked() {
    let mut items: Vec<SocketAddr> = (0..1002).map(v4).collect();
    overwrite(&mut items, 3007);
    assert_eq!(items.len(), 1001);
    assert_eq!(items[7], v4(1001));
    assert_eq!(items[8], v4(8));
    overwrite(&mut items, 0);
    assert_eq!(items.len(), 1000);
    assert_eq!(items[0], v4(1000));
}

#[test]
fn short_list_is_its_own_sample() {
    let mut items: Vec<SocketAddr> = (0..1000).map(v4).collect();
    let before = items.clone();
    sample(&mut items);
    assert_eq!(items, before);
}

#[test]
fn announcement_passes_up_to_ten_nodes() {
    let (mut book, log) = manager(0);
    let mut value = inbound();
    for _ in 0..2 {
        let message = DiscoveryMessage::Nodes(list(true, 10));
        assert_eq!(value.handle_message(message, &mut book), Ok(Some(list(true, 10))));
    }
    let message = DiscoveryMessage::Nodes(list(true, 11));
    assert_eq!(value.handle_message(message, &mut book), Ok(None));
    assert_eq!(log.borrow().reports, vec![(v4(99), 222)]);
}

#[test]
fn answer_passes_once_and_up_to_a_thousand_nodes() {
    let (mut book, log) = manager(0);
    let mut value = inbound();
    let message = DiscoveryMessage::Nodes(list(false, 1001));
    assert_eq!(value.handle_message(message, &mut book), Ok(None));
    let message = DiscoveryMessage::Nodes(list(false, 1000));
    assert_eq!(value.handle_message(message, &mut book), Ok(Some(list(false, 1000))));
    let message = DiscoveryMessage::Nodes(list(false, 1));
    assert_eq!(value.handle_message(message, &mut book), Ok(None));
    assert_eq!(log.borrow().reports, vec![(v4(99), 444), (v4(99), 333)]);
}

#[test]
fn received_lists_come_in_order() {
    let (mut book, log) = manager(2);
    let mut value = inbound();
    let arrived = vec![
        DiscoveryMessage::Nodes(nodes(true, &[1])),
        ask(),
        DiscoveryMessage::Nodes(nodes(false, &[2])),
        DiscoveryMessage::Nodes(nodes(false, &[3])),
        DiscoveryMessage::Nodes(nodes(true, &[4])),
    ];
    let received = value.receive_messages(arrived, StreamEnd::NotReady, &mut book);
    let expected = vec![nodes(true, &[1]), nodes(false, &[2]), nodes(true, &[4])];
    assert_eq!(received, Ok(Some(expected)));
    assert_eq!(log.borrow().reports, vec![(v4(99), 333)]);
    assert!(!value.remote_closed());
}

#[test]
fn nothing_is_read_after_the_peer_has_closed() {
    let (mut book, _) = manager(0);
    let mut value = inbound();
    let arrived = vec![DiscoveryMessage::Nodes(nodes(true, &[1]))];
    let received = value.receive_messages(arrived, StreamEnd::Closed, &mut book);
    assert_eq!(received, Ok(Some(vec![nodes(true, &[1])])));
    assert!(value.remote_closed());
    let arrived = vec![DiscoveryMessage::Nodes(nodes(true, &[2])), ask()];
    let received = value.receive_messages(arrived, StreamEnd::Failed, &mut book);
    assert_eq!(received, Ok(None));
    assert_eq!(drain(&mut value), vec![]);
}

#[test]
fn lists_are_lost_when_the_stream_fails() {
    let (mut book, log) = manager(0);
    let mut value = inbound();
    let arrived = vec![DiscoveryMessage::Nodes(nodes(false, &[1]))];
    let received = value.receive_messages(arrived, StreamEnd::Failed, &mut book);
    assert_eq!(received, Err(StreamError));
    // The list has been taken note of all the same.
    let message = DiscoveryMessage::Nodes(nodes(false, &[1]));
    assert_eq!(value.handle_message(message, &mut book), Ok(None));
    assert_eq!(log.borrow().reports, vec![(v4(99), 333)]);
    value.offer(v4(1));
    value.tell();
    assert_eq!(drain(&mut value), vec![DiscoveryMessage::Nodes(nodes(true, &[]))]);
}

#[test]
fn what_the_peer_told_is_not_told_back() {
    let (mut book, _) = manager(0);
    let mut value = inbound();
    let arrived = vec![DiscoveryMessage::Nodes(nodes(true, &[1, 3]))];
    assert!(value.receive_messages(arrived, StreamEnd::NotReady, &mut book).is_ok());
    for ip in 1..5 {
        value.offer(v4(ip));
    }
    value.tell();
    assert_eq!(drain(&mut value), vec![DiscoveryMessage::Nodes(nodes(true, &[2, 4]))]);
    // Nothing waits any more.
    value.tell();
    assert_eq!(drain(&mut value), vec![]);
}

#[test]
fn at_most_ten_addresses_wait() {
    let mut value = inbound();
    for ip in 0..12 {
        value.offer(v4(ip));
    }
    value.tell();
    let expected = nodes(true, &(0..10).collect::<Vec<_>>());
    assert_eq!(drain(&mut value), vec![DiscoveryMessage::Nodes(expected)]);
}

#[test]
fn two_peers_talk() {
    let (mut here_book, here_log) = manager(0);
    let (mut there_book, there_log) = manager(3);
    let mut here = SubstreamValue::new(Direction::Outbound, 5000, v4(1));
    let mut there = SubstreamValue::new(Direction::Inbound, 5000, v4(2));
    let asked = drain(&mut here);
    let received = there.receive_messages(asked, StreamEnd::NotReady, &mut there_book);
    assert_eq!(received, Ok(Some(vec![])));
    let answered = drain(&mut there);
    let received = here.receive_messages(answered, StreamEnd::NotReady, &mut here_book);
    assert_eq!(received, Ok(Some(vec![nodes(false, &[0, 1, 2])])));
    // Announcements are welcome at any time, in both directions.
    for ip in 10..13 {
        there.offer(v4(ip));
        there.tell();
        here.offer(v4(ip + 10));
        here.tell();
    }
    let announced = drain(&mut there);
    assert_eq!(announced.len(), 3);
    let received = here.receive_messages(announced, StreamEnd::NotReady, &mut here_book);
    let expected = vec![nodes(true, &[10]), nodes(true, &[11]), nodes(true, &[12])];
    assert_eq!(received, Ok(Some(expected)));
    let announced = drain(&mut here);
    let received = there.receive_messages(announced, StreamEnd::NotReady, &mut there_book);
    let expected = vec![nodes(true, &[20]), nodes(true, &[21]), nodes(true, &[22])];
    assert_eq!(received, Ok(Some(expected)));
    assert!(here_log.borrow().reports.is_empty());
    assert!(there_log.borrow().reports.is_empty());
}

#[test]
fn messages_may_arrive_in_two_goes() {
    let messages = || {
        vec![
            ask(),
            DiscoveryMessage::Nodes(nodes(false, &[1])),
            DiscoveryMessage::Nodes(nodes(false, &[2])),
            ask(),
            DiscoveryMessage::Nodes(nodes(true, &[3])),
        ]
    };
    for cut in 0..6 {
        let (mut book, log) = manager(1);
        let mut value = inbound();
        let mut first = messages();
        let second = first.split_off(cut);
        let mut passed = vec![];
        for arrived in vec![first, second] {
            let received = value.receive_messages(arrived, StreamEnd::NotReady, &mut book);
            passed.extend(received.unwrap().unwrap());
        }
        assert_eq!(passed, vec![nodes(false, &[1]), nodes(true, &[3])]);
        assert_eq!(log.borrow().reports, vec![(v4(99), 333), (v4(99), 111)]);
        assert_eq!(log.borrow().asked, vec![2500]);
        assert_eq!(drain(&mut value), vec![DiscoveryMessage::Nodes(nodes(false, &[0]))]);
    }
}
