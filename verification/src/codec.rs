//! How messages travel: each is serialised and framed by its length.

use crate::addr::AddrRaw;
use crate::frame::{
    buffered, decode_frame, default_framing, encode_frame, frame_awaited, framed, joined,
    lemma_frame_in_pieces_reads_back, lemma_frame_reads_back, new_framing, read_frame,
    read_in_pieces, FrameRead, FrameStep, MAX_FRAME_LEN,
};
use crate::message::{DiscoveryMessage, MessageView, Node, NodeView, Nodes, NodesView};
use bytes::BytesMut;
use tokio::codec::length_delimited::LengthDelimitedCodec;
use vstd::prelude::*;
use vstd::utf8::encode_utf8;

verus! {

/// Why a message could not be read or written.
#[derive(Clone, Copy, PartialEq, Eq, Structural, Debug)]
pub enum CodecError {
    /// The bytes do not hold a message.
    InvalidData,
    /// The message is too long for a frame.
    InvalidInput,
}

// ---------------------------------------------------------------------------
// The wire form of a message: the same parts in the same order, as plain values.
// ---------------------------------------------------------------------------

/// A node as plain values: its identity, and its addresses as pairs of address
/// and port.
pub type WireNode = (Option<String>, Vec<(u128, u16)>);

/// A message as plain values. A serialised `Result` is the number of its variant
/// followed by the variant's parts, as any two-variant enum is: `Ok` stands for
/// [`DiscoveryMessage::GetNodes`], `Err` for [`DiscoveryMessage::Nodes`].
pub type WireMessage = Result<(u32, u32), (bool, Vec<WireNode>)>;

/// What a [`WireNode`] says.
pub type WireNodeView = (Option<Seq<char>>, Seq<(u128, u16)>);

/// What a [`WireMessage`] says.
pub type WireView = Result<(u32, u32), (bool, Seq<WireNodeView>)>;

pub open spec fn wire_node_view(node: WireNode) -> WireNodeView {
    (
        match node.0 {
            Some(id) => Some(id@),
            None => None,
        },
        node.1@,
    )
}

pub open spec fn wire_view(message: WireMessage) -> WireView {
    match message {
        Ok(question) => Ok(question),
        Err((announce, items)) => Err(
            (announce, items@.map_values(|node: WireNode| wire_node_view(node))),
        ),
    }
}

/// The wire form of a node.
pub open spec fn wire_node_of(node: NodeView) -> WireNodeView {
    (node.node_id, node.addresses.map_values(|addr: AddrRaw| (addr.ip, addr.port)))
}

/// The wire form of a message.
pub open spec fn wire_of(message: MessageView) -> WireView {
    match message {
        MessageView::GetNodes { version, count } => Ok((version, count)),
        MessageView::Nodes(nodes) => Err(
            (nodes.announce, nodes.items.map_values(|node: NodeView| wire_node_of(node))),
        ),
    }
}

/// The node of which this is the wire form.
pub open spec fn node_of(wire: WireNodeView) -> NodeView {
    NodeView {
        node_id: wire.0,
        addresses: wire.1.map_values(|addr: (u128, u16)| AddrRaw { ip: addr.0, port: addr.1 }),
    }
}

/// The message of which this is the wire form.
pub open spec fn message_of(wire: WireView) -> MessageView {
    match wire {
        Ok((version, count)) => MessageView::GetNodes { version, count },
        Err((announce, items)) => MessageView::Nodes(
            NodesView { announce, items: items.map_values(|node: WireNodeView| node_of(node)) },
        ),
    }
}

/// No part of a message is lost in its wire form.
pub proof fn lemma_wire_form_is_faithful(message: MessageView)
    ensures
        message_of(wire_of(message)) == message,
{
    if let MessageView::Nodes(nodes) = message {
        let back = message_of(wire_of(message))->Nodes_0;
        assert forall|i: int|
            0 <= i < nodes.items.len() implies back.items[i] == #[trigger] nodes.items[i] by {
            assert(back.items[i].addresses =~= nodes.items[i].addresses);
        }
        assert(back.items =~= nodes.items);
    }
}

fn node_to_wire(node: Node) -> (wire: WireNode)
    ensures
        wire_node_view(wire) == wire_node_of(node@),
{
    let ghost addresses = node.addresses@;
    let mut pairs: Vec<(u128, u16)> = Vec::new();
    for addr in it: node.addresses
        invariant
            it.seq() == addresses,
            pairs@.len() == it.index(),
            forall|j: int|
                0 <= j < pairs@.len() ==> pairs@[j] == (addresses[j].ip, addresses[j].port),
    {
        pairs.push((addr.ip, addr.port));
    }
    let wire = (node.node_id, pairs);
    assert(wire_node_view(wire).1 =~= wire_node_of(node@).1);
    wire
}

/// Puts a message into its wire form.
pub fn to_wire(message: DiscoveryMessage) -> (wire: WireMessage)
    ensures
        wire_view(wire) == wire_of(message@),
{
    match message {
        DiscoveryMessage::GetNodes { version, count } => Ok((version, count)),
        DiscoveryMessage::Nodes(nodes) => {
            let ghost nodes_list = nodes.items@;
            let mut items: Vec<WireNode> = Vec::new();
            for node in it: nodes.items
                invariant
                    it.seq() == nodes_list,
                    items@.len() == it.index(),
                    forall|j: int|
                        0 <= j < items@.len() ==> wire_node_view(#[trigger] items@[j])
                            == wire_node_of(nodes_list[j]@),
            {
                items.push(node_to_wire(node));
            }
            let wire: WireMessage = Err((nodes.announce, items));
            assert(wire_view(wire)->Err_0.1 =~= wire_of(message@)->Err_0.1);
            wire
        },
    }
}

fn node_from_wire(wire: WireNode) -> (node: Node)
    ensures
        node@ == node_of(wire_node_view(wire)),
{
    let (node_id, pairs) = wire;
    let ghost all = pairs@;
    let mut addresses: Vec<AddrRaw> = Vec::new();
    for pair in it: pairs
        invariant
            it.seq() == all,
            addresses@.len() == it.index(),
            forall|j: int|
                0 <= j < addresses@.len() ==> addresses@[j] == (AddrRaw {
                    ip: all[j].0,
                    port: all[j].1,
                }),
    {
        addresses.push(AddrRaw { ip: pair.0, port: pair.1 });
    }
    let node = Node { node_id, addresses };
    assert(node@.addresses =~= node_of(wire_node_view(wire)).addresses);
    node
}

/// Takes a message out of its wire form.
pub fn from_wire(wire: WireMessage) -> (message: DiscoveryMessage)
    ensures
        message@ == message_of(wire_view(wire)),
{
    match wire {
        Ok((version, count)) => DiscoveryMessage::GetNodes { version, count },
        Err((announce, wire_items)) => {
            let ghost all = wire_items@;
            let mut items: Vec<Node> = Vec::new();
            for node in it: wire_items
                invariant
                    it.seq() == all,
                    items@.len() == it.index(),
                    forall|j: int|
                        0 <= j < items@.len() ==> (#[trigger] items@[j])@ == node_of(
                            wire_node_view(all[j]),
                        ),
            {
                items.push(node_from_wire(node));
            }
            let nodes = Nodes { announce, items };
            assert(nodes@.items =~= (message_of(wire_view(wire))->Nodes_0).items);
            DiscoveryMessage::Nodes(nodes)
        },
    }
}

// ---------------------------------------------------------------------------
// Serialisation.
// ---------------------------------------------------------------------------

/// Declares `bincode::ErrorKind`, which `bincode::Error` boxes.
#[verifier::external_type_specification]
#[verifier::external_body]
pub struct ExBincodeErrorKind(bincode::ErrorKind);

/// The bytes that `bincode::serialize` makes of a message in its wire form; none
/// where it fails.
pub uninterp spec fn bincode_serialized(
    wire: Result<(u32, u32), (bool, Seq<(Option<Seq<char>>, Seq<(u128, u16)>)>)>,
) -> Option<Seq<u8>>;

/// The message, in its wire form, that `bincode::deserialize` makes of some
/// bytes; none where it fails.
pub uninterp spec fn bincode_deserialized(
    bytes: Seq<u8>,
) -> Option<Result<(u32, u32), (bool, Seq<(Option<Seq<char>>, Seq<(u128, u16)>)>)>>;

/// How many bytes a node takes: one that says whether its identity is known; the
/// identity, in UTF-8 and preceded by its length; and the addresses, preceded by
/// their number. A length or a number takes eight bytes, an address with its port
/// eighteen.
pub open spec fn wire_node_len(node: WireNodeView) -> nat {
    1 + (match node.0 {
        Some(id) => 8 + encode_utf8(id).len(),
        None => 0,
    }) + 8 + 18 * node.1.len()
}

/// How many bytes some nodes take.
pub open spec fn wire_nodes_len(nodes: Seq<WireNodeView>) -> nat
    decreases nodes.len(),
{
    if nodes.len() == 0 {
        0
    } else {
        wire_nodes_len(nodes.drop_last()) + wire_node_len(nodes.last())
    }
}

/// How many bytes a message takes: four for the number of its variant; then two
/// numbers of four bytes; or one byte for the flag, and the nodes, preceded by their
/// number.
pub open spec fn wire_len(message: WireView) -> nat {
    match message {
        Ok(_) => 12,
        Err((_, items)) => 4 + 1 + 8 + wire_nodes_len(items),
    }
}

/// The length of a list of nodes of unknown identity with one address each.
pub proof fn lemma_len_of_anonymous_list(nodes: NodesView)
    requires
        forall|i: int|
            0 <= i < nodes.items.len() ==> {
                &&& (#[trigger] nodes.items[i]).node_id is None
                &&& nodes.items[i].addresses.len() == 1
            },
    ensures
        wire_len(wire_of(MessageView::Nodes(nodes))) == 13 + 27 * nodes.items.len(),
    decreases nodes.items.len(),
{
    let wire = wire_of(MessageView::Nodes(nodes))->Err_0.1;
    if nodes.items.len() > 0 {
        let fewer = NodesView { items: nodes.items.drop_last(), ..nodes };
        assert forall|i: int| 0 <= i < fewer.items.len() implies {
            &&& (#[trigger] fewer.items[i]).node_id is None
            &&& fewer.items[i].addresses.len() == 1
        } by {
            assert(fewer.items[i] == nodes.items[i]);
        }
        lemma_len_of_anonymous_list(fewer);
        assert(wire.drop_last() =~= wire_of(MessageView::Nodes(fewer))->Err_0.1);
        assert(nodes.items.last() == nodes.items[nodes.items.len() - 1]);
        assert(wire.last() == wire_node_of(nodes.items.last()));
    }
}

/// Calls `bincode::serialize`, whose result depends on the value alone. It sets no
/// limit to the size, and for a value of this type it does not fail. Integers take a
/// fixed number of bytes, so that the length of the result is [`wire_len`].
#[verifier::external_body]
fn serialize(wire: &WireMessage) -> (serialized: Result<Vec<u8>, bincode::Error>)
    ensures
        match serialized {
            Ok(bytes) => bincode_serialized(wire_view(*wire)) == Some(bytes@),
            Err(_) => bincode_serialized(wire_view(*wire)) is None,
        },
        serialized is Ok,
        serialized->Ok_0@.len() == wire_len(wire_view(*wire)),
{
    bincode::serialize(wire)
}

/// Calls `bincode::deserialize`, whose result depends on the bytes alone, and
/// which gives back what `bincode::serialize` was given.
#[verifier::external_body]
fn deserialize(bytes: &Vec<u8>) -> (deserialized: Result<WireMessage, bincode::Error>)
    ensures
        match deserialized {
            Ok(wire) => bincode_deserialized(bytes@) == Some(wire_view(wire)),
            Err(_) => bincode_deserialized(bytes@) is None,
        },
        forall|given: WireView|
            #[trigger] bincode_serialized(given) == Some(bytes@) ==> deserialized is Ok
                && wire_view(deserialized->Ok_0) == given,
{
    bincode::deserialize(bytes)
}

// ---------------------------------------------------------------------------
// The codec.
// ---------------------------------------------------------------------------

/// The frame in which a message travels; none where the message cannot be
/// serialised or is too long for a frame.
pub open spec fn encoded(message: MessageView) -> Option<Seq<u8>> {
    match bincode_serialized(wire_of(message)) {
        Some(payload) => if payload.len() <= MAX_FRAME_LEN {
            Some(framed(payload))
        } else {
            None
        },
        None => None,
    }
}

/// What the payload of a frame says; none where it is no message.
pub open spec fn decoded(payload: Seq<u8>) -> Option<MessageView> {
    match bincode_deserialized(payload) {
        Some(wire) => Some(message_of(wire)),
        None => None,
    }
}

/// In however many pieces the frame of a message arrives, the reader finds what
/// the message was serialised to once the last piece is there.
pub proof fn lemma_message_in_pieces_reads_back(
    said: MessageView,
    rest: Seq<u8>,
    pieces: Seq<Seq<u8>>,
)
    requires
        encoded(said) is Some,
        pieces.len() > 0,
        joined(pieces) == encoded(said)->0 + rest,
        joined(pieces.drop_last()).len() < encoded(said)->0.len(),
    ensures
        read_in_pieces(pieces) == (FrameStep {
            awaited: None,
            rest,
            read: FrameRead::Complete(bincode_serialized(wire_of(said))->0),
        }),
{
    lemma_frame_in_pieces_reads_back(bincode_serialized(wire_of(said))->0, rest, pieces);
}

/// Reads messages from bytes and writes messages into bytes.
pub struct DiscoveryCodec {
    inner: LengthDelimitedCodec,
}

impl DiscoveryCodec {
    /// The codec frames its messages in the way that [`read_frame`] reads them.
    pub closed spec fn wf(&self) -> bool {
        default_framing(self.inner)
    }

    /// The length of the payload that is being waited for, where the head of its
    /// frame has been consumed already.
    pub closed spec fn awaited(&self) -> Option<nat> {
        frame_awaited(self.inner)
    }

    /// What reading from a buffer that holds `bytes` comes to.
    pub open spec fn step(&self, bytes: Seq<u8>) -> FrameStep {
        read_frame(self.awaited(), bytes)
    }

    /// Takes the first message off the front of `src`.
    ///
    /// The answer is `None` while the message is not all there, and an error where
    /// its frame is too long or holds no message. Bytes that [`Self::encode`] made
    /// of a message are read back as that message, whether they are there all at
    /// once or have arrived in pieces.
    pub fn decode(&mut self, src: &mut BytesMut) -> (message: Result<
        Option<DiscoveryMessage>,
        CodecError,
    >)
        requires
            old(self).wf(),
        ensures
            final(self).wf(),
            final(self).awaited() == old(self).step(buffered(*old(src))).awaited,
            buffered(*final(src)) == old(self).step(buffered(*old(src))).rest,
            match old(self).step(buffered(*old(src))).read {
                FrameRead::Incomplete => message matches Ok(None),
                FrameRead::Complete(payload) => match decoded(payload) {
                    Some(said) => message matches Ok(Some(heard)) && heard@ == said,
                    None => message matches Err(CodecError::InvalidData),
                },
                FrameRead::TooBig => message matches Err(CodecError::InvalidData),
            },
            forall|said: MessageView|
                #![trigger bincode_serialized(wire_of(said))]
                (bincode_serialized(wire_of(said)) is Some && old(self).step(
                    buffered(*old(src)),
                ).read == FrameRead::Complete(bincode_serialized(wire_of(said))->0)) ==> (
                message matches Ok(Some(heard)) && heard@ == said),
            forall|said: MessageView|
                #![trigger encoded(said)]
                (encoded(said) is Some && old(self).awaited() is None && encoded(
                    said,
                )->0.is_prefix_of(buffered(*old(src)))) ==> {
                    &&& message matches Ok(Some(heard)) && heard@ == said
                    &&& final(self).awaited() is None
                    &&& buffered(*final(src)) == buffered(*old(src)).skip(
                        encoded(said)->0.len() as int,
                    )
                },
    {
        let ghost bytes = buffered(*src);
        let ghost awaited = self.awaited();
        let frame = decode_frame(&mut self.inner, src);
        proof {
            assert forall|said: MessageView|
                #![trigger encoded(said)]
                (encoded(said) is Some && awaited is None && encoded(said)->0.is_prefix_of(
                    bytes,
                )) implies read_frame(awaited, bytes) == (FrameStep {
                awaited: None,
                rest: bytes.skip(encoded(said)->0.len() as int),
                read: FrameRead::Complete(bincode_serialized(wire_of(said))->0),
            }) by {
                let sent = encoded(said)->0;
                let rest = bytes.skip(sent.len() as int);
                assert(bytes =~= sent + rest);
                lemma_frame_reads_back(bincode_serialized(wire_of(said))->0, rest);
            }
        }
        match frame {
            Ok(Some(payload)) => match deserialize(&payload) {
                Ok(wire) => {
                    proof {
                        assert forall|said: MessageView|
                            #[trigger] bincode_serialized(wire_of(said)) == Some(
                                payload@,
                            ) implies message_of(wire_view(wire)) == said by {
                            lemma_wire_form_is_faithful(said);
                        }
                    }
                    Ok(Some(from_wire(wire)))
                },
                Err(_) => Err(CodecError::InvalidData),
            },
            Ok(None) => Ok(None),
            Err(_) => Err(CodecError::InvalidData),
        }
    }

    /// Appends `item` to `dst`.
    ///
    /// It fails, and appends nothing, where the message is too long for a frame, and
    /// only there.
    pub fn encode(&mut self, item: DiscoveryMessage, dst: &mut BytesMut) -> (done: Result<
        (),
        CodecError,
    >)
        requires
            old(self).wf(),
        ensures
            final(self).wf(),
            final(self).awaited() == old(self).awaited(),
            match encoded(item@) {
                Some(bytes) => done is Ok && buffered(*final(dst)) == buffered(*old(dst)) + bytes,
                None => done is Err && buffered(*final(dst)) == buffered(*old(dst)),
            },
            bincode_serialized(wire_of(item@)) is Some,
            done is Ok <==> wire_len(wire_of(item@)) <= MAX_FRAME_LEN,
            done is Err ==> done == Err::<(), CodecError>(CodecError::InvalidInput),
    {
        let wire = to_wire(item);
        match serialize(&wire) {
            Ok(payload) => match encode_frame(&mut self.inner, payload, dst) {
                Ok(()) => Ok(()),
                Err(_) => Err(CodecError::InvalidInput),
            },
            Err(_) => Err(CodecError::InvalidData),
        }
    }
}

impl Default for DiscoveryCodec {
    /// A codec at the start of a frame.
    fn default() -> (codec: DiscoveryCodec)
        ensures
            codec.wf(),
            codec.awaited() is None,
    {
        DiscoveryCodec { inner: new_framing() }
    }
}

} // verus!
