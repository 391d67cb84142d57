//! The messages that peers exchange.

use crate::addr::AddrRaw;
use vstd::prelude::*;

verus! {

/// What one peer says to another.
#[derive(Clone, PartialEq, Eq, Debug)]
pub enum DiscoveryMessage {
    /// Asks for the addresses of other nodes.
    GetNodes { version: u32, count: u32 },
    /// Tells the addresses of other nodes.
    Nodes(Nodes),
}

/// A list of nodes: the answer to a question, or an announcement.
#[derive(Clone, PartialEq, Eq, Debug)]
pub struct Nodes {
    pub announce: bool,
    pub items: Vec<Node>,
}

/// A node and where it can be reached.
#[derive(Clone, PartialEq, Eq, Debug)]
pub struct Node {
    /// Unknown for an address that came from DNS or from a seed.
    pub node_id: Option<String>,
    pub addresses: Vec<AddrRaw>,
}

/// What a [`Node`] says.
#[verifier::ext_equal]
pub struct NodeView {
    pub node_id: Option<Seq<char>>,
    pub addresses: Seq<AddrRaw>,
}

/// What a [`Nodes`] says.
#[verifier::ext_equal]
pub struct NodesView {
    pub announce: bool,
    pub items: Seq<NodeView>,
}

/// What a [`DiscoveryMessage`] says.
#[verifier::ext_equal]
pub enum MessageView {
    GetNodes { version: u32, count: u32 },
    Nodes(NodesView),
}

impl View for Node {
    type V = NodeView;

    open spec fn view(&self) -> NodeView {
        NodeView {
            node_id: match self.node_id {
                Some(id) => Some(id@),
                None => None,
            },
            addresses: self.addresses@,
        }
    }
}

impl View for Nodes {
    type V = NodesView;

    open spec fn view(&self) -> NodesView {
        NodesView { announce: self.announce, items: self.items@.map_values(|node: Node| node@) }
    }
}

impl View for DiscoveryMessage {
    type V = MessageView;

    open spec fn view(&self) -> MessageView {
        match self {
            DiscoveryMessage::GetNodes { version, count } => MessageView::GetNodes {
                version: *version,
                count: *count,
            },
            DiscoveryMessage::Nodes(nodes) => MessageView::Nodes(nodes@),
        }
    }
}

/// What a list of messages says, message by message.
pub open spec fn messages_view(messages: Seq<DiscoveryMessage>) -> Seq<MessageView> {
    messages.map_values(|message: DiscoveryMessage| message@)
}

/// What a list of node lists says, list by list.
pub open spec fn lists_view(lists: Seq<Nodes>) -> Seq<NodesView> {
    lists.map_values(|nodes: Nodes| nodes@)
}

/// A node of unknown identity with a single address.
pub open spec fn anonymous(addr: AddrRaw) -> NodeView {
    NodeView { node_id: None, addresses: seq![addr] }
}

/// All addresses of these nodes, node by node.
pub open spec fn all_addresses(items: Seq<NodeView>) -> Seq<AddrRaw>
    decreases items.len(),
{
    if items.len() == 0 {
        Seq::empty()
    } else {
        all_addresses(items.drop_last()) + items.last().addresses
    }
}

impl NodesView {
    /// The list that answers a question: nodes of unknown identity at `addrs`.
    pub open spec fn of_addresses(addrs: Seq<AddrRaw>) -> NodesView {
        NodesView { announce: false, items: addrs.map_values(|addr: AddrRaw| anonymous(addr)) }
    }

    /// The list that announces `addrs`, as nodes of unknown identity.
    pub open spec fn announcement(addrs: Seq<AddrRaw>) -> NodesView {
        NodesView { announce: true, items: addrs.map_values(|addr: AddrRaw| anonymous(addr)) }
    }
}

impl Node {
    /// A node of which nothing but one address is known.
    pub fn anonymous(addr: AddrRaw) -> (node: Node)
        ensures
            node@ == anonymous(addr),
    {
        let mut addresses: Vec<AddrRaw> = Vec::new();
        addresses.push(addr);
        assert(addresses@ == seq![addr]);
        Node { node_id: None, addresses }
    }
}

impl Nodes {
    /// The nodes of unknown identity at `addrs`, as no announcement.
    pub fn of_addresses(addrs: &Vec<AddrRaw>) -> (nodes: Nodes)
        ensures
            nodes@ == NodesView::of_addresses(addrs@),
    {
        let mut items: Vec<Node> = Vec::new();
        let mut i: usize = 0;
        while i < addrs.len()
            invariant
                i <= addrs@.len(),
                items@.len() == i,
                forall|j: int| 0 <= j < i ==> (#[trigger] items@[j])@ == anonymous(addrs@[j]),
            decreases addrs@.len() - i,
        {
            items.push(Node::anonymous(addrs[i]));
            i += 1;
        }
        let nodes = Nodes { announce: false, items };
        assert(nodes@.items =~= NodesView::of_addresses(addrs@).items);
        nodes
    }

    /// The nodes of unknown identity at `addrs`, as an announcement.
    pub fn announcement(addrs: &Vec<AddrRaw>) -> (nodes: Nodes)
        ensures
            nodes@ == NodesView::announcement(addrs@),
    {
        Nodes { announce: true, ..Nodes::of_addresses(addrs) }
    }
}

} // verus!
