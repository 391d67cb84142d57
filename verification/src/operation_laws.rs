//! What each operation does, part by part, for every input.

use crate::addr::{raw_of, AddrRaw, KnownAddrs, ManagerCall, SocketAddr};
use crate::codec::{
    bincode_deserialized, bincode_serialized, decoded, encoded, lemma_wire_form_is_faithful,
    message_of, node_of, wire_node_of, wire_of, WireNodeView, WireView,
};
use crate::frame::framed;
use crate::laws::{
    holds_question, law_at_most_one_answer, law_recent_addresses_are_known, lemma_insert_keeps_wf,
};
use crate::message::{
    all_addresses, lists_view, messages_view, DiscoveryMessage, MessageView, Node, NodeView, Nodes,
    NodesView,
};
use crate::random::{drawn, lemma_sample_is_drawn_from_items, overwritten, sampled};
use crate::substream::{
    lemma_receiving_leaves_the_rest, next_action, queue_after, Chance, Direction, SendAction,
    SendEvent, StreamEnd, SubstreamState, TimerPoll,
};
use vstd::prelude::*;

verus! {

// ---------------------------------------------------------------------------
// Addresses.
// ---------------------------------------------------------------------------

/// An IPv6 socket travels with its own address and port.
pub proof fn law_ipv6_travels_unchanged(ip: u128, port: u16, flowinfo: u32, scope_id: u32)
    ensures
        raw_of(SocketAddr::V6 { ip, port, flowinfo, scope_id }).ip == ip,
        raw_of(SocketAddr::V6 { ip, port, flowinfo, scope_id }).port == port,
{
}

/// An IPv4 socket travels with its own port and with its address in the last four
/// bytes of an address in the block `::ffff:0:0/96`.
pub proof fn law_ipv4_travels_mapped(ip: u32, port: u16)
    ensures
        raw_of(SocketAddr::V4 { ip, port }).ip % 0x1_0000_0000 == ip,
        raw_of(SocketAddr::V4 { ip, port }).ip / 0x1_0000_0000 == 0xffff,
        raw_of(SocketAddr::V4 { ip, port }).port == port,
{
}

/// Two sockets travel in the same form only if they have the same port and the same
/// address: as IPv4, as IPv6, or as an IPv4 address and the IPv6 address that stands
/// for it.
pub proof fn law_same_form_same_place(a: SocketAddr, b: SocketAddr)
    requires
        raw_of(a) == raw_of(b),
    ensures
        match (a, b) {
            (
                SocketAddr::V4 { ip: x, port: p },
                SocketAddr::V4 { ip: y, port: q },
            ) => x == y && p == q,
            (
                SocketAddr::V6 { ip: x, port: p, .. },
                SocketAddr::V6 { ip: y, port: q, .. },
            ) => x == y && p == q,
            (
                SocketAddr::V4 { ip: x, port: p },
                SocketAddr::V6 { ip: y, port: q, .. },
            ) => y == 0xffff_0000_0000 + x && p == q,
            (
                SocketAddr::V6 { ip: x, port: p, .. },
                SocketAddr::V4 { ip: y, port: q },
            ) => x == 0xffff_0000_0000 + y && p == q,
        },
{
}

/// Nothing is known at first, and the limit is the one that was asked for.
pub proof fn law_nothing_is_known_at_first(max_known: nat)
    ensures
        KnownAddrs::empty(max_known).addrs.len() == 0,
        KnownAddrs::empty(max_known).max_known == max_known,
{
}

/// Inserting an address makes it the newest. The others keep their order, and none
/// of them is forgotten but the oldest, and that only where a new address comes and
/// there is no room.
pub proof fn law_inserting_keeps_the_others(known: KnownAddrs, addr: AddrRaw)
    requires
        known.wf(),
        known.max_known > 0,
    ensures
        ({
            let before = known.addrs;
            let after = known.insert(addr).addrs;
            &&& known.insert(addr).max_known == known.max_known
            &&& after.len() > 0
            &&& after[after.len() - 1] == addr
            &&& forall|i: int|
                #![trigger before[i]]
                0 <= i < before.len() && before[i] == addr ==> {
                    &&& after.len() == before.len()
                    &&& forall|j: int| 0 <= j < i ==> #[trigger] after[j] == before[j]
                    &&& forall|j: int|
                        i <= j < after.len() - 1 ==> #[trigger] after[j] == before[j + 1]
                }
            &&& !before.contains(addr) && before.len() < known.max_known ==> {
                &&& after.len() == before.len() + 1
                &&& forall|j: int| 0 <= j < before.len() ==> #[trigger] after[j] == before[j]
            }
            &&& !before.contains(addr) && before.len() == known.max_known ==> {
                &&& after.len() == before.len()
                &&& forall|j: int| 0 <= j < after.len() - 1 ==> #[trigger] after[j] == before[j + 1]
            }
        }),
{
    let before = known.addrs;
    assert forall|i: int|
        #![trigger before[i]]
        0 <= i < before.len() && before[i] == addr implies {
        let after = known.insert(addr).addrs;
        &&& after.len() == before.len()
        &&& forall|j: int| 0 <= j < i ==> #[trigger] after[j] == before[j]
        &&& forall|j: int| i <= j < after.len() - 1 ==> #[trigger] after[j] == before[j + 1]
    } by {
        assert(before.contains(addr));
        assert(before.index_of(addr) == i);
    }
}

/// Where nothing may be known, nothing is.
pub proof fn law_no_room_nothing_known(known: KnownAddrs, addr: AddrRaw)
    requires
        known.wf(),
        known.max_known == 0,
    ensures
        known.insert(addr).addrs.len() == 0,
{
}

/// Addresses are inserted one after the other.
pub proof fn law_inserting_in_two_goes(known: KnownAddrs, first: Seq<AddrRaw>, second: Seq<AddrRaw>)
    ensures
        known.insert_all(Seq::empty()) == known,
        forall|addr: AddrRaw| #[trigger] known.insert_all(seq![addr]) == known.insert(addr),
        known.insert_all(first + second) == known.insert_all(first).insert_all(second),
    decreases second.len(),
{
    assert forall|addr: AddrRaw| #[trigger] known.insert_all(seq![addr]) == known.insert(addr) by {
        assert(seq![addr].drop_last() =~= Seq::empty());
        reveal_with_fuel(KnownAddrs::insert_all, 2);
    }
    if second.len() == 0 {
        assert(first + second =~= first);
    } else {
        assert((first + second).drop_last() =~= first + second.drop_last());
        law_inserting_in_two_goes(known, first, second.drop_last());
    }
}

// ---------------------------------------------------------------------------
// Lists of nodes.
// ---------------------------------------------------------------------------

/// What is said of a node, of a list and of a message is all that they hold.
pub proof fn law_views_hold_everything(node: Node, nodes: Nodes, message: DiscoveryMessage)
    ensures
        node@.addresses == node.addresses@,
        match node.node_id {
            Some(id) => node@.node_id == Some(id@),
            None => node@.node_id is None,
        },
        nodes@.announce == nodes.announce,
        nodes@.items.len() == nodes.items@.len(),
        forall|i: int|
            0 <= i < nodes.items@.len() ==> #[trigger] nodes@.items[i] == nodes.items@[i]@,
        match message {
            DiscoveryMessage::GetNodes { version, count } => message@ == MessageView::GetNodes {
                version,
                count,
            },
            DiscoveryMessage::Nodes(list) => message@ == MessageView::Nodes(list@),
        },
{
}

/// What is said of some messages or lists is what each of them says, in their order.
pub proof fn law_views_keep_order(messages: Seq<DiscoveryMessage>, lists: Seq<Nodes>)
    ensures
        messages_view(messages).len() == messages.len(),
        forall|i: int|
            0 <= i < messages.len() ==> #[trigger] messages_view(messages)[i] == messages[i]@,
        lists_view(lists).len() == lists.len(),
        forall|i: int| 0 <= i < lists.len() ==> #[trigger] lists_view(lists)[i] == lists[i]@,
{
}

/// A list made of addresses holds one node for each address, in their order: of
/// unknown identity, and at that address alone. As an answer it is no announcement,
/// as an announcement it is one.
pub proof fn law_list_of_addresses(addrs: Seq<AddrRaw>)
    ensures
        !NodesView::of_addresses(addrs).announce,
        NodesView::announcement(addrs).announce,
        NodesView::of_addresses(addrs).items == NodesView::announcement(addrs).items,
        NodesView::of_addresses(addrs).items.len() == addrs.len(),
        forall|i: int|
            0 <= i < addrs.len() ==> {
                let node = #[trigger] NodesView::of_addresses(addrs).items[i];
                &&& node.node_id is None
                &&& node.addresses.len() == 1
                &&& node.addresses[0] == addrs[i]
            },
{
}

/// How many addresses some nodes have together.
pub open spec fn address_count(items: Seq<NodeView>) -> nat
    decreases items.len(),
{
    if items.len() == 0 {
        0
    } else {
        address_count(items.drop_last()) + items.last().addresses.len()
    }
}

/// How many addresses the nodes before the `i`-th have together.
pub open spec fn address_offset(items: Seq<NodeView>, i: int) -> nat {
    address_count(items.take(i))
}

/// The addresses of some nodes are all that the nodes have, node by node and in
/// their order, and no others.
pub proof fn law_all_addresses_in_order(items: Seq<NodeView>, i: int, j: int)
    requires
        0 <= i < items.len(),
        0 <= j < items[i].addresses.len(),
    ensures
        all_addresses(items).len() == address_count(items),
        address_offset(items, i) + j < all_addresses(items).len(),
        all_addresses(items)[address_offset(items, i) + j] == items[i].addresses[j],
    decreases items.len(),
{
    let fewer = items.drop_last();
    lemma_count_of_addresses(items);
    lemma_count_of_addresses(fewer);
    if i < fewer.len() {
        law_all_addresses_in_order(fewer, i, j);
        assert(items.take(i) =~= fewer.take(i));
    } else {
        assert(items.take(i) =~= fewer);
    }
}

proof fn lemma_count_of_addresses(items: Seq<NodeView>)
    ensures
        all_addresses(items).len() == address_count(items),
    decreases items.len(),
{
    if items.len() > 0 {
        lemma_count_of_addresses(items.drop_last());
    }
}

// ---------------------------------------------------------------------------
// What a message does.
// ---------------------------------------------------------------------------

/// Whether a list is accepted depends on its length, on whether it is an
/// announcement, and on whether there was an answer before, whatever nodes it holds;
/// and so does what is reported of it.
pub proof fn law_lists_are_held_to_length(state: SubstreamState, nodes: NodesView)
    ensures
        nodes.announce ==> (state.accepts(MessageView::Nodes(nodes)) <==> nodes.items.len() <= 10),
        !nodes.announce ==> (state.accepts(MessageView::Nodes(nodes)) <==> !state.received_nodes
            && nodes.items.len() <= 1000),
        state.accepts(MessageView::Nodes(nodes)) <==> state.fault(
            MessageView::Nodes(nodes),
        ) is None,
        nodes.announce && nodes.items.len() > 10 ==> state.fault(MessageView::Nodes(nodes)) == Some(
            222u32,
        ),
        !nodes.announce && state.received_nodes ==> state.fault(MessageView::Nodes(nodes)) == Some(
            333u32,
        ),
        !nodes.announce && !state.received_nodes && nodes.items.len() > 1000 ==> state.fault(
            MessageView::Nodes(nodes),
        ) == Some(444u32),
        !state.answers(MessageView::Nodes(nodes)),
{
}

/// Two lists of the same length, both announcements or both not, meet the same
/// verdict on substreams that have both had an answer or both not.
pub proof fn law_same_length_same_verdict(
    a: SubstreamState,
    b: SubstreamState,
    x: NodesView,
    y: NodesView,
)
    requires
        x.announce == y.announce,
        x.items.len() == y.items.len(),
        a.received_nodes == b.received_nodes,
    ensures
        a.fault(MessageView::Nodes(x)) == b.fault(MessageView::Nodes(y)),
        a.accepts(MessageView::Nodes(x)) == b.accepts(MessageView::Nodes(y)),
{
}

/// A question is answered if it is the first, and reported if it is not, whatever
/// version and count it names.
pub proof fn law_first_question_alone_is_answered(state: SubstreamState, version: u32, count: u32)
    ensures
        ({
            let question = MessageView::GetNodes { version, count };
            &&& state.answers(question) <==> !state.received_get_nodes
            &&& !state.accepts(question)
            &&& !state.received_get_nodes ==> state.fault(question) is None
            &&& state.received_get_nodes ==> state.fault(question) == Some(111u32)
        }),
{
}

/// What handling a message changes. The answer to a question joins the queue, at its
/// end, and the question is taken note of; of a list that is accepted it is taken
/// note whether it was an answer; nothing else changes.
pub proof fn law_handling_changes(state: SubstreamState, message: MessageView, chance: Chance)
    ensures
        ({
            let after = state.handled(message, chance);
            &&& after.addr_known == state.addr_known
            &&& after.remote_addr == state.remote_addr
            &&& after.announce == state.announce
            &&& after.announce_addrs == state.announce_addrs
            &&& after.remote_closed == state.remote_closed
            &&& match message {
                MessageView::GetNodes { .. } => {
                    &&& after.received_get_nodes
                    &&& after.received_nodes == state.received_nodes
                    &&& after.pending_messages == if state.received_get_nodes {
                        state.pending_messages
                    } else {
                        state.pending_messages + seq![MessageView::Nodes(chance.answer())]
                    }
                },
                MessageView::Nodes(nodes) => {
                    &&& after.received_get_nodes == state.received_get_nodes
                    &&& after.received_nodes == (state.received_nodes || (!nodes.announce
                        && nodes.items.len() <= 1000))
                    &&& after.pending_messages == state.pending_messages
                },
            }
        }),
{
    if message is GetNodes {
        assert(state.handled(message, chance).pending_messages =~= if state.received_get_nodes {
            state.pending_messages
        } else {
            state.pending_messages + seq![MessageView::Nodes(chance.answer())]
        });
    }
}

/// The calls that a message makes to the address manager: none for a list that is
/// accepted; for the first question one that asks for 2500 addresses; and for
/// anything else one that reports the peer.
pub proof fn law_calls_of_a_message(state: SubstreamState, message: MessageView, chance: Chance)
    ensures
        ({
            let calls = state.calls(message, chance);
            let report = |kind: u32|
                seq![ManagerCall::Misbehave { addr: state.remote_addr, kind }];
            calls == match message {
                MessageView::GetNodes { .. } => if state.received_get_nodes {
                    report(111)
                } else {
                    seq![ManagerCall::GetRandom { n: 2500, answer: chance.addrs }]
                },
                MessageView::Nodes(nodes) => if nodes.announce && nodes.items.len() <= 10 {
                    Seq::empty()
                } else if nodes.announce {
                    report(222)
                } else if state.received_nodes {
                    report(333)
                } else if nodes.items.len() > 1000 {
                    report(444)
                } else {
                    Seq::empty()
                },
            }
        }),
{
}

/// An answer holds as many nodes as there are addresses to choose from, but no more
/// than 1000; each stands for an address from a place of its own among them.
pub proof fn law_answer_holds_what_was_found(chance: Chance) -> (places: Seq<int>)
    requires
        chance.valid(),
    ensures
        !chance.answer().announce,
        chance.addrs.len() <= 1000 ==> chance.answer().items.len() == chance.addrs.len(),
        chance.addrs.len() <= 1000 ==> forall|i: int|
            0 <= i < places.len() ==> #[trigger] places[i] == i,
        chance.addrs.len() > 1000 ==> chance.answer().items.len() == 1000,
        places.len() == chance.answer().items.len(),
        places.no_duplicates(),
        forall|i: int|
            0 <= i < places.len() ==> {
                let node = chance.answer().items[i];
                &&& 0 <= #[trigger] places[i] < chance.addrs.len()
                &&& node.node_id is None
                &&& node.addresses.len() == 1
                &&& node.addresses[0] == raw_of(chance.addrs[places[i]])
            },
{
    lemma_sample_is_drawn_from_items(chance.addrs, chance.picks);
    drawn(chance.addrs.len(), chance.picks)
}

/// Cutting a list down by one moves its last item to the place that the number
/// picked names among the first thousand, and leaves the others where they are.
pub proof fn law_cutting_down_by_one(items: Seq<SocketAddr>, picks: Seq<usize>, pick: usize)
    requires
        items.len() > 1000 + picks.len(),
    ensures
        sampled(items, Seq::empty()) == items,
        ({
            let before = sampled(items, picks);
            let after = sampled(items, picks.push(pick));
            &&& before.len() == items.len() - picks.len()
            &&& after.len() == before.len() - 1
            &&& after[pick as int % 1000] == before[before.len() - 1]
            &&& forall|i: int|
                0 <= i < after.len() && i != pick as int % 1000 ==> #[trigger] after[i] == before[i]
            &&& after == overwritten(before, pick)
        }),
{
    lemma_sample_is_drawn_from_items(items, picks);
    assert(picks.push(pick).drop_last() =~= picks);
}

/// Every address of every node in a list that was taken note of is known, provided
/// that there is room for all of them.
pub proof fn law_every_address_is_learned(state: SubstreamState, nodes: NodesView)
    requires
        state.addr_known.wf(),
        address_count(nodes.items) <= state.addr_known.max_known,
    ensures
        forall|i: int, j: int|
            0 <= i < nodes.items.len() && 0 <= j < nodes.items[i].addresses.len() ==> state.learned(
                nodes,
            ).addr_known.addrs.contains(#[trigger] nodes.items[i].addresses[j]),
{
    let all = all_addresses(nodes.items);
    lemma_count_of_addresses(nodes.items);
    law_recent_addresses_are_known(state.addr_known, all);
    assert forall|i: int, j: int|
        0 <= i < nodes.items.len() && 0 <= j < nodes.items[i].addresses.len() implies state.learned(
        nodes,
    ).addr_known.addrs.contains(#[trigger] nodes.items[i].addresses[j]) by {
        law_all_addresses_in_order(nodes.items, i, j);
        assert(all[address_offset(nodes.items, i) + j] == nodes.items[i].addresses[j]);
    }
}

/// Whether an address is that of a node.
pub open spec fn is_address_in(items: Seq<NodeView>, addr: AddrRaw) -> bool {
    exists|i: int, j: int|
        0 <= i < items.len() && 0 <= j < items[i].addresses.len()
            && #[trigger] items[i].addresses[j] == addr
}

proof fn lemma_collected_address_is_of_a_node(items: Seq<NodeView>, at: int)
    requires
        0 <= at < all_addresses(items).len(),
    ensures
        is_address_in(items, all_addresses(items)[at]),
    decreases items.len(),
{
    let fewer = items.drop_last();
    let addr = all_addresses(items)[at];
    if at < all_addresses(fewer).len() {
        lemma_collected_address_is_of_a_node(fewer, at);
        let (i, j) = choose|i: int, j: int|
            0 <= i < fewer.len() && 0 <= j < fewer[i].addresses.len()
                && #[trigger] fewer[i].addresses[j] == addr;
        assert(items[i].addresses[j] == addr);
    } else {
        let j = at - all_addresses(fewer).len();
        assert(items[items.len() - 1].addresses[j] == addr);
    }
}

proof fn lemma_only_what_was_inserted(known: KnownAddrs, more: Seq<AddrRaw>, addr: AddrRaw)
    requires
        known.insert_all(more).addrs.contains(addr),
    ensures
        known.addrs.contains(addr) || more.contains(addr),
    decreases more.len(),
{
    if more.len() > 0 {
        let before = known.insert_all(more.drop_last());
        let after = known.insert_all(more).addrs;
        let last = more.last();
        assert(more[more.len() - 1] == last);
        let k = choose|k: int| 0 <= k < after.len() && after[k] == addr;
        if addr != last {
            let all = before.others(last).push(last);
            assert(all.contains(addr)) by {
                if all.len() > before.max_known {
                    assert(all[k + 1] == addr);
                } else {
                    assert(all[k] == addr);
                }
            }
            let m = choose|m: int| 0 <= m < all.len() && all[m] == addr;
            assert(before.others(last)[m] == addr);
            if before.addrs.contains(last) && m >= before.addrs.index_of(last) {
                assert(before.addrs[m + 1] == addr);
            } else {
                assert(before.addrs[m] == addr);
            }
            lemma_only_what_was_inserted(known, more.drop_last(), addr);
            if more.drop_last().contains(addr) {
                let n = choose|n: int|
                    0 <= n < more.drop_last().len() && more.drop_last()[n] == addr;
                assert(more[n] == addr);
            }
        }
    }
}

/// Taking note of a list makes nothing known but the addresses in it, and changes
/// nothing but what is known.
pub proof fn law_only_the_list_is_learned(state: SubstreamState, nodes: NodesView)
    ensures
        ({
            let after = state.learned(nodes);
            &&& forall|addr: AddrRaw| #[trigger]
                after.addr_known.addrs.contains(addr) ==> state.addr_known.addrs.contains(addr)
                    || is_address_in(nodes.items, addr)
            &&& after.pending_messages == state.pending_messages
            &&& after.remote_addr == state.remote_addr
            &&& after.announce == state.announce
            &&& after.announce_addrs == state.announce_addrs
            &&& after.received_get_nodes == state.received_get_nodes
            &&& after.received_nodes == state.received_nodes
            &&& after.remote_closed == state.remote_closed
        }),
{
    let all = all_addresses(nodes.items);
    assert forall|addr: AddrRaw| #[trigger]
        state.learned(nodes).addr_known.addrs.contains(
        addr,
    ) implies state.addr_known.addrs.contains(addr) || is_address_in(nodes.items, addr) by {
        lemma_only_what_was_inserted(state.addr_known, all, addr);
        if all.contains(addr) {
            let at = choose|at: int| 0 <= at < all.len() && all[at] == addr;
            lemma_collected_address_is_of_a_node(nodes.items, at);
        }
    }
}

proof fn lemma_nothing_is_forgotten(known: KnownAddrs, more: Seq<AddrRaw>, addr: AddrRaw)
    requires
        known.wf(),
        known.addrs.len() + more.len() <= known.max_known,
        known.addrs.contains(addr),
    ensures
        known.insert_all(more).addrs.contains(addr),
        known.insert_all(more).addrs.len() <= known.addrs.len() + more.len(),
        known.insert_all(more).max_known == known.max_known,
        known.insert_all(more).wf(),
    decreases more.len(),
{
    if more.len() > 0 {
        let before = known.insert_all(more.drop_last());
        let last = more.last();
        lemma_nothing_is_forgotten(known, more.drop_last(), addr);
        lemma_insert_keeps_wf(before, last);
        law_inserting_keeps_the_others(before, last);
        let after = before.insert(last).addrs;
        let k = choose|k: int| 0 <= k < before.addrs.len() && before.addrs[k] == addr;
        if before.addrs.contains(last) {
            let i = choose|i: int| 0 <= i < before.addrs.len() && before.addrs[i] == last;
            assert(before.addrs[i] == last);
            if k < i {
                assert(after[k] == addr);
            } else if k > i {
                assert(after[k - 1] == before.addrs[k - 1 + 1]);
            } else {
                assert(after[after.len() - 1] == addr);
            }
        } else {
            assert(after[k] == addr);
        }
    }
}

/// Where there is room for all, taking note of a list forgets nothing.
pub proof fn law_learning_forgets_nothing(state: SubstreamState, nodes: NodesView, addr: AddrRaw)
    requires
        state.addr_known.wf(),
        state.addr_known.addrs.len() + address_count(nodes.items) <= state.addr_known.max_known,
        state.addr_known.addrs.contains(addr),
    ensures
        state.learned(nodes).addr_known.addrs.contains(addr),
{
    lemma_count_of_addresses(nodes.items);
    lemma_nothing_is_forgotten(state.addr_known, all_addresses(nodes.items), addr);
}

/// A list that is received and accepted is taken note of, whether it is an answer or
/// an announcement; of any other message nothing becomes known.
pub proof fn law_receiving_one_message(state: SubstreamState, message: MessageView, chance: Chance)
    requires
        state.addr_known.wf(),
    ensures
        ({
            let after = state.absorbed(message, chance);
            let handled = state.handled(message, chance);
            &&& after.pending_messages == handled.pending_messages
            &&& after.received_get_nodes == handled.received_get_nodes
            &&& after.received_nodes == handled.received_nodes
            &&& after.remote_addr == state.remote_addr
            &&& after.announce == state.announce
            &&& after.announce_addrs == state.announce_addrs
            &&& after.remote_closed == state.remote_closed
            &&& message is GetNodes ==> after.addr_known == state.addr_known
            &&& message matches MessageView::Nodes(nodes) ==> if if nodes.announce {
                nodes.items.len() <= 10
            } else {
                !state.received_nodes && nodes.items.len() <= 1000
            } {
                address_count(nodes.items) <= state.addr_known.max_known ==> forall|i: int, j: int|
                    0 <= i < nodes.items.len() && 0 <= j < nodes.items[i].addresses.len()
                        ==> after.addr_known.addrs.contains(#[trigger] nodes.items[i].addresses[j])
            } else {
                after.addr_known == state.addr_known
            }
        }),
{
    if let MessageView::Nodes(nodes) = message {
        if state.accepts(message) && address_count(nodes.items) <= state.addr_known.max_known {
            law_every_address_is_learned(state.handled(message, chance), nodes);
        }
    }
}

// ---------------------------------------------------------------------------
// What several messages do.
// ---------------------------------------------------------------------------

/// Whether a message is a list that may count as the answer to a question.
pub open spec fn is_good_answer(message: MessageView) -> bool {
    message matches MessageView::Nodes(nodes) && !nodes.announce && nodes.items.len() <= 1000
}

/// Whether the `i`-th of some messages is a list that is to be passed on: a short
/// announcement, or the first good answer, unless there had been one before.
pub open spec fn is_to_be_passed_on(
    state: SubstreamState,
    messages: Seq<MessageView>,
    i: int,
) -> bool {
    &&& messages[i] is Nodes
    &&& if messages[i]->Nodes_0.announce {
        messages[i]->Nodes_0.items.len() <= 10
    } else {
        &&& is_good_answer(messages[i])
        &&& !state.received_nodes
        &&& forall|j: int| 0 <= j < i ==> !is_good_answer(#[trigger] messages[j])
    }
}

/// After some messages there has been an answer if there had been one before or one
/// of them is a good one.
pub proof fn law_first_good_answer_counts(
    state: SubstreamState,
    messages: Seq<MessageView>,
    chance: Chance,
)
    ensures
        state.absorbed_all(messages, chance).received_nodes <==> state.received_nodes || exists|
            i: int,
        |
            0 <= i < messages.len() && is_good_answer(#[trigger] messages[i]),
    decreases messages.len(),
{
    if messages.len() > 0 {
        let shorter = messages.drop_last();
        law_first_good_answer_counts(state, shorter, chance);
        assert(messages.last() == messages[messages.len() - 1]);
        if exists|i: int| 0 <= i < shorter.len() && is_good_answer(#[trigger] shorter[i]) {
            let i = choose|i: int| 0 <= i < shorter.len() && is_good_answer(#[trigger] shorter[i]);
            assert(is_good_answer(messages[i]));
        }
        assert forall|i: int|
            0 <= i < messages.len() && is_good_answer(#[trigger] messages[i]) && i
                < shorter.len() implies is_good_answer(shorter[i]) by {}
    }
}

/// Receiving one more message passes on what the earlier ones do, followed by the
/// very list that the message carries if it is accepted, and by nothing if not.
pub proof fn law_one_more_message_passed_on(
    state: SubstreamState,
    earlier: Seq<MessageView>,
    message: MessageView,
    chance: Chance,
)
    ensures
        state.passed_on(Seq::empty(), chance).len() == 0,
        ({
            let before = state.passed_on(earlier, chance);
            let after = state.passed_on(earlier.push(message), chance);
            if message is Nodes && state.absorbed_all(earlier, chance).accepts(message) {
                let list = after[before.len() as int];
                let said = message->Nodes_0;
                &&& after.len() == before.len() + 1
                &&& forall|k: int| 0 <= k < before.len() ==> #[trigger] after[k] == before[k]
                &&& list.announce == said.announce
                &&& list.items.len() == said.items.len()
                &&& forall|k: int|
                    0 <= k < said.items.len() ==> #[trigger] list.items[k] == said.items[k]
            } else {
                after == before
            }
        }),
{
    assert(earlier.push(message).drop_last() =~= earlier);
}

/// The lists that are passed on are those of the messages that are to be passed on,
/// whole and in their order: the `k`-th list is the one that the message at the `k`-th
/// of these places carries.
pub proof fn law_lists_are_passed_on_whole(
    state: SubstreamState,
    messages: Seq<MessageView>,
    chance: Chance,
) -> (places: Seq<int>)
    ensures
        places.len() == state.passed_on(messages, chance).len(),
        forall|k: int|
            0 <= k < places.len() ==> {
                &&& 0 <= #[trigger] places[k] < messages.len()
                &&& is_to_be_passed_on(state, messages, places[k])
                &&& messages[places[k]] == MessageView::Nodes(state.passed_on(messages, chance)[k])
            },
        forall|k: int, l: int|
            0 <= k < l < places.len() ==> #[trigger] places[k] < #[trigger] places[l],
        forall|i: int|
            0 <= i < messages.len() && #[trigger] is_to_be_passed_on(state, messages, i)
                ==> places.contains(i),
    decreases messages.len(),
{
    if messages.len() == 0 {
        Seq::empty()
    } else {
        let shorter = messages.drop_last();
        let n = shorter.len() as int;
        let before = law_lists_are_passed_on_whole(state, shorter, chance);
        law_first_good_answer_counts(state, shorter, chance);
        assert forall|i: int| 0 <= i < n implies is_to_be_passed_on(state, shorter, i)
            == #[trigger] is_to_be_passed_on(state, messages, i) by {
            assert(shorter[i] == messages[i]);
            assert(forall|j: int| 0 <= j < i ==> shorter[j] == messages[j]);
            assert((forall|j: int| 0 <= j < i ==> !is_good_answer(#[trigger] shorter[j])) == (
            forall|j: int| 0 <= j < i ==> !is_good_answer(#[trigger] messages[j])));
        }
        assert(messages[n] == messages.last());
        let passes = state.absorbed_all(shorter, chance).accepts(messages.last());
        assert(passes == is_to_be_passed_on(state, messages, n)) by {
            assert(forall|j: int| 0 <= j < n ==> shorter[j] == messages[j]);
            assert((exists|j: int| 0 <= j < n && is_good_answer(#[trigger] shorter[j])) == (exists|
                j: int,
            |
                0 <= j < n && is_good_answer(#[trigger] messages[j]))) by {
                if exists|j: int| 0 <= j < n && is_good_answer(#[trigger] shorter[j]) {
                    let j = choose|j: int| 0 <= j < n && is_good_answer(#[trigger] shorter[j]);
                    assert(is_good_answer(messages[j]));
                }
                if exists|j: int| 0 <= j < n && is_good_answer(#[trigger] messages[j]) {
                    let j = choose|j: int| 0 <= j < n && is_good_answer(#[trigger] messages[j]);
                    assert(is_good_answer(shorter[j]));
                }
            }
        }
        let places = if passes {
            before.push(n)
        } else {
            before
        };
        assert forall|k: int| 0 <= k < places.len() implies {
            &&& 0 <= #[trigger] places[k] < messages.len()
            &&& is_to_be_passed_on(state, messages, places[k])
            &&& messages[places[k]] == MessageView::Nodes(state.passed_on(messages, chance)[k])
        } by {
            if k < before.len() {
                assert(places[k] == before[k]);
                assert(shorter[before[k]] == messages[before[k]]);
                assert(is_to_be_passed_on(state, messages, before[k]));
            }
        }
        assert forall|i: int|
            0 <= i < messages.len() && #[trigger] is_to_be_passed_on(
                state,
                messages,
                i,
            ) implies places.contains(i) by {
            if i < n {
                assert(is_to_be_passed_on(state, shorter, i));
                let k = choose|k: int| 0 <= k < before.len() && before[k] == i;
                assert(places[k] == i);
            } else {
                assert(places[places.len() - 1] == i);
            }
        }
        places
    }
}

/// On a fresh substream, an answer of at most 1000 nodes is passed on as it is.
pub proof fn law_an_answer_is_passed_on_as_it_is(
    direction: Direction,
    max_known: nat,
    remote_addr: SocketAddr,
    nodes: NodesView,
    chance: Chance,
)
    requires
        !nodes.announce,
        nodes.items.len() <= 1000,
    ensures
        ({
            let fresh = SubstreamState::fresh(direction, max_known, remote_addr);
            let passed = fresh.passed_on(seq![MessageView::Nodes(nodes)], chance);
            passed.len() == 1 && passed[0] == nodes
        }),
{
    let fresh = SubstreamState::fresh(direction, max_known, remote_addr);
    let message = MessageView::Nodes(nodes);
    assert(seq![message] =~= Seq::empty().push(message));
    law_one_more_message_passed_on(fresh, Seq::empty(), message, chance);
    let passed = fresh.passed_on(seq![message], chance);
    assert(passed[0].items =~= nodes.items);
}

/// Receiving one more message makes the calls that the earlier ones make, followed
/// by its own, in the state that the earlier ones led to; and it does to the
/// substream what it does alone in that state.
pub proof fn law_one_more_message_received(
    state: SubstreamState,
    earlier: Seq<MessageView>,
    message: MessageView,
    chance: Chance,
)
    ensures
        state.absorbed_all(Seq::empty(), chance) == state,
        state.calls_all(Seq::empty(), chance).len() == 0,
        ({
            let before = state.absorbed_all(earlier, chance);
            &&& state.absorbed_all(earlier.push(message), chance) == before.absorbed(
                message,
                chance,
            )
            &&& state.calls_all(earlier.push(message), chance) == state.calls_all(earlier, chance)
                + before.calls(message, chance)
        }),
{
    assert(earlier.push(message).drop_last() =~= earlier);
}

/// The addresses in some lists.
pub open spec fn addresses_in_lists(lists: Seq<NodesView>) -> Seq<AddrRaw>
    decreases lists.len(),
{
    if lists.len() == 0 {
        Seq::empty()
    } else {
        addresses_in_lists(lists.drop_last()) + all_addresses(lists.last().items)
    }
}

/// What is known after some messages is what was known before, with the addresses in
/// the lists that are passed on inserted one after the other.
pub proof fn law_lists_passed_on_are_learned(
    state: SubstreamState,
    messages: Seq<MessageView>,
    chance: Chance,
)
    ensures
        state.absorbed_all(messages, chance).addr_known == state.addr_known.insert_all(
            addresses_in_lists(state.passed_on(messages, chance)),
        ),
    decreases messages.len(),
{
    if messages.len() > 0 {
        let shorter = messages.drop_last();
        law_lists_passed_on_are_learned(state, shorter, chance);
        let lists = state.passed_on(shorter, chance);
        if state.absorbed_all(shorter, chance).accepts(messages.last()) {
            let nodes = messages.last()->Nodes_0;
            assert(lists.push(nodes).drop_last() =~= lists);
            law_inserting_in_two_goes(
                state.addr_known,
                addresses_in_lists(lists),
                all_addresses(nodes.items),
            );
        }
    }
}

/// Messages are received only on a stream that the peer had not closed. It counts as
/// closed from when reading it comes to its end, and at no other time; and what the
/// messages do does not depend on what reading came to.
pub proof fn law_reading_to_the_end(
    state: SubstreamState,
    messages: Seq<MessageView>,
    end: StreamEnd,
    chance: Chance,
)
    ensures
        state.remote_closed ==> state.received(messages, end, chance) == state,
        !state.remote_closed ==> {
            let after = state.received(messages, end, chance);
            let absorbed = state.absorbed_all(messages, chance);
            &&& after.remote_closed <==> end == StreamEnd::Closed
            &&& after.pending_messages == absorbed.pending_messages
            &&& after.addr_known == absorbed.addr_known
            &&& after.received_get_nodes == (state.received_get_nodes || holds_question(messages))
            &&& after.received_nodes == absorbed.received_nodes
            &&& after.remote_addr == state.remote_addr
            &&& after.announce == state.announce
            &&& after.announce_addrs == state.announce_addrs
        },
{
    lemma_receiving_leaves_the_rest(state, messages, chance);
    law_at_most_one_answer(state, messages, chance);
}

// ---------------------------------------------------------------------------
// Timers, announcements and sending.
// ---------------------------------------------------------------------------

/// A substream as it is opened: whoever opened it has one message for the peer, which
/// asks for 1000 nodes; the other side has none. Nothing has happened yet.
pub proof fn law_fresh_substream(direction: Direction, max_known: nat, remote_addr: SocketAddr)
    ensures
        ({
            let fresh = SubstreamState::fresh(direction, max_known, remote_addr);
            &&& direction == Direction::Inbound ==> fresh.pending_messages.len() == 0
            &&& direction == Direction::Outbound ==> {
                &&& fresh.pending_messages.len() == 1
                &&& fresh.pending_messages[0] == MessageView::GetNodes { version: 0, count: 1000 }
            }
            &&& fresh.addr_known.addrs.len() == 0
            &&& fresh.addr_known.max_known == max_known
            &&& fresh.remote_addr == remote_addr
            &&& fresh.announce_addrs.len() == 0
            &&& !fresh.announce
            &&& !fresh.received_get_nodes
            &&& !fresh.received_nodes
            &&& !fresh.remote_closed
        }),
{
}

/// A timer that fires makes the peer's address due, and taking it up ends that.
/// Neither changes anything else, and no other outcome of polling the timer does
/// anything.
pub proof fn law_timer_makes_due(state: SubstreamState, polled: TimerPoll)
    ensures
        state.timed(TimerPoll::Fired).announce,
        polled != TimerPoll::Fired ==> state.timed(polled) == state,
        state.announce ==> state.timed(polled) == state,
        !state.announced().announce,
        !state.announce ==> state.announced() == state,
        !state.announce ==> state.timed(TimerPoll::Fired).announced() == state,
{
}

/// An address that is put forward waits, after those that wait already, unless ten
/// wait; nothing else changes.
pub proof fn law_offered_address_waits(state: SubstreamState, addr: SocketAddr)
    ensures
        ({
            let after = state.offered(addr);
            &&& state.announce_addrs.len() < 10 ==> after.announce_addrs == state.announce_addrs
                + seq![addr]
            &&& state.announce_addrs.len() >= 10 ==> after.announce_addrs == state.announce_addrs
            &&& after.pending_messages == state.pending_messages
            &&& after.addr_known == state.addr_known
            &&& after.remote_addr == state.remote_addr
            &&& after.announce == state.announce
            &&& after.received_get_nodes == state.received_get_nodes
            &&& after.received_nodes == state.received_nodes
            &&& after.remote_closed == state.remote_closed
        }),
{
    assert(state.announce_addrs.push(addr) =~= state.announce_addrs + seq![addr]);
}

/// What is new to the peer is what waits and is not known, in its order: the `k`-th
/// new address is the travelling form of the one that waits at the `k`-th of these
/// places.
pub proof fn law_news_in_order(state: SubstreamState) -> (places: Seq<int>)
    ensures
        places.len() == state.news().len(),
        forall|k: int|
            0 <= k < places.len() ==> {
                &&& 0 <= #[trigger] places[k] < state.announce_addrs.len()
                &&& state.news()[k] == raw_of(state.announce_addrs[places[k]])
                &&& !state.addr_known.addrs.contains(state.news()[k])
            },
        forall|k: int, l: int|
            0 <= k < l < places.len() ==> #[trigger] places[k] < #[trigger] places[l],
        forall|i: int|
            0 <= i < state.announce_addrs.len() && !state.addr_known.addrs.contains(
                raw_of(#[trigger] state.announce_addrs[i]),
            ) ==> places.contains(i),
    decreases state.announce_addrs.len(),
{
    reveal(Seq::filter);
    let addrs = state.announce_addrs;
    let raws = addrs.map_values(|addr: SocketAddr| raw_of(addr));
    if addrs.len() == 0 {
        Seq::empty()
    } else {
        let n = addrs.len() - 1;
        let fewer = SubstreamState { announce_addrs: addrs.drop_last(), ..state };
        let before = law_news_in_order(fewer);
        assert(raws.drop_last() =~= fewer.announce_addrs.map_values(
            |addr: SocketAddr| raw_of(addr),
        ));
        let unseen = |raw: AddrRaw| !state.addr_known.addrs.contains(raw);
        assert(fewer.news() == raws.drop_last().filter(unseen));
        assert(state.news() == raws.filter(unseen));
        assert(raws.last() == raw_of(addrs[n]));
        let places = if unseen(raws.last()) {
            before.push(n)
        } else {
            before
        };
        assert forall|k: int| 0 <= k < places.len() implies {
            &&& 0 <= #[trigger] places[k] < addrs.len()
            &&& state.news()[k] == raw_of(addrs[places[k]])
            &&& !state.addr_known.addrs.contains(state.news()[k])
        } by {
            if k < before.len() {
                assert(places[k] == before[k]);
                assert(fewer.announce_addrs[before[k]] == addrs[before[k]]);
            }
        }
        assert forall|i: int|
            0 <= i < addrs.len() && !state.addr_known.addrs.contains(
                raw_of(#[trigger] addrs[i]),
            ) implies places.contains(i) by {
            if i < n {
                assert(fewer.announce_addrs[i] == addrs[i]);
                let k = choose|k: int| 0 <= k < before.len() && before[k] == i;
                assert(places[k] == i);
            } else {
                assert(places[places.len() - 1] == i);
            }
        }
        places
    }
}

/// What waits is put into one announcement, which joins the queue at its end: one
/// node of unknown identity for each address that is new to the peer. Nothing waits
/// then. Where nothing waits there is no announcement; and nothing else changes.
pub proof fn law_telling_announces_the_news(state: SubstreamState)
    ensures
        ({
            let after = state.told();
            let n = state.pending_messages.len();
            &&& after.announce_addrs.len() == 0
            &&& state.announce_addrs.len() == 0 ==> after.pending_messages == state.pending_messages
            &&& state.announce_addrs.len() > 0 ==> {
                &&& after.pending_messages.len() == n + 1
                &&& forall|i: int|
                    0 <= i < n ==> #[trigger] after.pending_messages[i] == state.pending_messages[i]
                &&& after.pending_messages[n as int] matches MessageView::Nodes(nodes) && {
                    &&& nodes.announce
                    &&& nodes.items.len() == state.news().len()
                    &&& forall|i: int|
                        0 <= i < nodes.items.len() ==> {
                            &&& (#[trigger] nodes.items[i]).node_id is None
                            &&& nodes.items[i].addresses.len() == 1
                            &&& nodes.items[i].addresses[0] == state.news()[i]
                        }
                }
            }
            &&& after.addr_known == state.addr_known
            &&& after.remote_addr == state.remote_addr
            &&& after.announce == state.announce
            &&& after.received_get_nodes == state.received_get_nodes
            &&& after.received_nodes == state.received_nodes
            &&& after.remote_closed == state.remote_closed
        }),
{
}

/// What a peer has told is not told back to it: after a list was taken note of for
/// which there was room, none of the addresses of its nodes is new to the peer.
pub proof fn law_no_address_is_told_back(state: SubstreamState, nodes: NodesView)
    requires
        state.addr_known.wf(),
        address_count(nodes.items) <= state.addr_known.max_known,
    ensures
        forall|k: int, i: int, j: int|
            0 <= k < state.learned(nodes).news().len() && 0 <= i < nodes.items.len() && 0 <= j
                < nodes.items[i].addresses.len() ==> #[trigger] state.learned(nodes).news()[k]
                != #[trigger] nodes.items[i].addresses[j],
{
    law_every_address_is_learned(state, nodes);
    let places = law_news_in_order(state.learned(nodes));
    assert forall|k: int, i: int, j: int|
        0 <= k < state.learned(nodes).news().len() && 0 <= i < nodes.items.len() && 0 <= j
            < nodes.items[i].addresses.len() implies #[trigger] state.learned(nodes).news()[k]
        != #[trigger] nodes.items[i].addresses[j] by {
        assert(0 <= places[k]);
    }
}

/// One step of sending. While the stream takes what it is given, it is given the
/// first message that waits, or, where none waits, is asked to write out what it has
/// taken. A message that it gives back waits first. A failure is passed on as one.
/// Sending changes nothing but what waits.
pub proof fn law_sending_takes_from_the_front(
    state: SubstreamState,
    event: SendEvent,
    action: SendAction,
)
    requires
        next_action(state.pending_messages, event, action),
    ensures
        ({
            let before = state.pending_messages;
            let after = state.sending(event).pending_messages;
            match event {
                SendEvent::Start | SendEvent::Accepted => match action {
                    SendAction::StartSend(message) => before == seq![message@] + after,
                    SendAction::PollComplete => before.len() == 0 && after.len() == 0,
                    SendAction::Done(_) => false,
                },
                SendEvent::Refused(message) => {
                    &&& after == seq![message@] + before
                    &&& action matches SendAction::Done(Ok(()))
                },
                SendEvent::Completed => {
                    &&& after == before
                    &&& action matches SendAction::Done(Ok(()))
                },
                SendEvent::SendFailed | SendEvent::CompleteFailed => {
                    &&& after == before
                    &&& action matches SendAction::Done(Err(_))
                },
            }
        }),
        queue_after(state.pending_messages, event) == state.sending(event).pending_messages,
        state.sending(event) == (SubstreamState {
            pending_messages: state.sending(event).pending_messages,
            ..state
        }),
{
    let before = state.pending_messages;
    let after = state.sending(event).pending_messages;
    if let SendAction::StartSend(message) = action {
        assert(before =~= seq![message@] + after);
    }
}

// ---------------------------------------------------------------------------
// How messages travel.
// ---------------------------------------------------------------------------

/// The wire form of a question is its version and its count; that of a list is its
/// flag and its nodes, in their order.
pub proof fn law_wire_form(version: u32, count: u32, nodes: NodesView)
    ensures
        wire_of(MessageView::GetNodes { version, count }) == Ok::<
            (u32, u32),
            (bool, Seq<WireNodeView>),
        >((version, count)),
        wire_of(MessageView::Nodes(nodes)) matches Err((announce, items)) && {
            &&& announce == nodes.announce
            &&& items.len() == nodes.items.len()
            &&& forall|i: int|
                0 <= i < items.len() ==> {
                    &&& (#[trigger] items[i]).0 == nodes.items[i].node_id
                    &&& items[i].1.len() == nodes.items[i].addresses.len()
                    &&& forall|j: int|
                        0 <= j < items[i].1.len() ==> {
                            &&& (#[trigger] items[i].1[j]).0 == nodes.items[i].addresses[j].ip
                            &&& items[i].1[j].1 == nodes.items[i].addresses[j].port
                        }
                }
        },
{
}

/// A wire form and the message that it says stand for each other.
pub proof fn law_wire_form_is_taken_back(wire: WireView)
    ensures
        wire_of(message_of(wire)) == wire,
{
    if let Err((announce, items)) = wire {
        let back = wire_of(message_of(wire))->Err_0.1;
        assert forall|i: int| 0 <= i < items.len() implies #[trigger] back[i] == items[i] by {
            assert(back[i] == wire_node_of(node_of(items[i])));
            assert(back[i].1 =~= items[i].1);
        }
        assert(back =~= items);
    }
}

/// The frame of a message is what the message is serialised to, preceded by its
/// length in four bytes, the most significant first. There is one unless what it is
/// serialised to has more than 8 MiB.
pub proof fn law_frame_of_a_message(said: MessageView)
    requires
        bincode_serialized(wire_of(said)) is Some,
    ensures
        ({
            let payload = bincode_serialized(wire_of(said))->0;
            &&& encoded(said) is Some <==> payload.len() <= 8 * 1024 * 1024
            &&& encoded(said) matches Some(bytes) ==> {
                &&& bytes.len() == 4 + payload.len()
                &&& ((bytes[0] * 256 + bytes[1]) * 256 + bytes[2]) * 256 + bytes[3] == payload.len()
                &&& forall|i: int| 0 <= i < payload.len() ==> #[trigger] bytes[4 + i] == payload[i]
            }
        }),
{
    let payload = bincode_serialized(wire_of(said))->0;
    let n = payload.len();
    let bytes = framed(payload);
    if n <= 8 * 1024 * 1024 {
        assert(bytes[0] == n / 0x100_0000);
        assert(bytes[1] == n / 0x1_0000 % 0x100);
        assert(bytes[2] == n / 0x100 % 0x100);
        assert(bytes[3] == n % 0x100);
    }
}

/// A payload says a message if and only if what it deserialises to is the wire form
/// of that message; it says none if and only if it does not deserialise.
pub proof fn law_payload_says_what_it_deserialises_to(payload: Seq<u8>, said: MessageView)
    ensures
        decoded(payload) == Some(said) <==> bincode_deserialized(payload) == Some(wire_of(said)),
        decoded(payload) is None <==> bincode_deserialized(payload) is None,
{
    lemma_wire_form_is_faithful(said);
    if let Some(wire) = bincode_deserialized(payload) {
        law_wire_form_is_taken_back(wire);
    }
}

} // verus!
