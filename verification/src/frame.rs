//! Length-delimited frames: a payload, preceded by its length.

use bytes::BytesMut;
use tokio::codec::length_delimited::LengthDelimitedCodec;
use tokio::codec::{Decoder, Encoder};
use vstd::prelude::*;

verus! {

/// The longest payload that one frame may carry, in bytes (8 MiB).
pub const MAX_FRAME_LEN: usize = 8_388_608;

/// The number of bytes in which a frame states its length.
pub const HEAD_LEN: usize = 4;

/// What came of looking for a frame at the start of some bytes.
pub enum FrameRead {
    /// More bytes are needed.
    Incomplete,
    /// A frame with this payload.
    Complete(Seq<u8>),
    /// The length that the frame states is over [`MAX_FRAME_LEN`].
    TooBig,
}

/// The state of a reader of frames, and what it found.
#[verifier::ext_equal]
pub struct FrameStep {
    /// The length of the payload that is being waited for, where the head of its
    /// frame has been consumed already.
    pub awaited: Option<nat>,
    /// The bytes that are left.
    pub rest: Seq<u8>,
    pub read: FrameRead,
}

/// The number that four bytes stand for, the most significant first.
pub open spec fn head_value(bytes: Seq<u8>) -> nat {
    (bytes[0] * 0x100_0000 + bytes[1] * 0x1_0000 + bytes[2] * 0x100 + bytes[3]) as nat
}

/// The four bytes that stand for `n`, the most significant first.
pub open spec fn head_bytes(n: nat) -> Seq<u8> {
    seq![
        (n / 0x100_0000) as u8,
        (n / 0x1_0000 % 0x100) as u8,
        (n / 0x100 % 0x100) as u8,
        (n % 0x100) as u8,
    ]
}

/// The frame that carries `payload`.
pub open spec fn framed(payload: Seq<u8>) -> Seq<u8> {
    head_bytes(payload.len()) + payload
}

/// Takes a payload of `n` bytes off the front of `bytes`, once it is all there.
pub open spec fn read_payload(n: nat, bytes: Seq<u8>) -> FrameStep {
    if bytes.len() < n {
        FrameStep { awaited: Some(n), rest: bytes, read: FrameRead::Incomplete }
    } else {
        FrameStep {
            awaited: None,
            rest: bytes.skip(n as int),
            read: FrameRead::Complete(bytes.take(n as int)),
        }
    }
}

/// Takes a frame off the front of `bytes`: first its head, which settles how
/// many bytes to wait for, then its payload.
pub open spec fn read_frame(awaited: Option<nat>, bytes: Seq<u8>) -> FrameStep {
    match awaited {
        Some(n) => read_payload(n, bytes),
        None => if bytes.len() < HEAD_LEN {
            FrameStep { awaited: None, rest: bytes, read: FrameRead::Incomplete }
        } else if head_value(bytes) > MAX_FRAME_LEN {
            FrameStep { awaited: None, rest: bytes, read: FrameRead::TooBig }
        } else {
            read_payload(head_value(bytes), bytes.skip(HEAD_LEN as int))
        },
    }
}

/// A frame is read back as the payload that it carries, and what follows the
/// frame is left alone.
pub proof fn lemma_frame_reads_back(payload: Seq<u8>, rest: Seq<u8>)
    requires
        payload.len() <= MAX_FRAME_LEN,
    ensures
        read_frame(None, framed(payload) + rest) == (FrameStep {
            awaited: None,
            rest,
            read: FrameRead::Complete(payload),
        }),
{
    let n = payload.len();
    let bytes = framed(payload) + rest;
    assert(head_value(bytes) == n) by {
        assert(bytes[0] == n / 0x100_0000);
        assert(bytes[1] == n / 0x1_0000 % 0x100);
        assert(bytes[2] == n / 0x100 % 0x100);
        assert(bytes[3] == n % 0x100);
    }
    let after_head = bytes.skip(HEAD_LEN as int);
    assert(after_head =~= payload + rest);
    assert(after_head.take(n as int) =~= payload);
    assert(after_head.skip(n as int) =~= rest);
}

/// It does not matter in which pieces the bytes arrive: a reader that had to
/// wait finds, once more bytes are there, what it would have found had they been
/// there from the start.
pub proof fn lemma_frame_pieces_add_up(awaited: Option<nat>, bytes: Seq<u8>, more: Seq<u8>)
    requires
        read_frame(awaited, bytes).read is Incomplete,
    ensures
        read_frame(read_frame(awaited, bytes).awaited, read_frame(awaited, bytes).rest + more)
            == read_frame(awaited, bytes + more),
{
    if awaited is None && bytes.len() >= HEAD_LEN {
        assert((bytes + more).skip(HEAD_LEN as int) =~= bytes.skip(HEAD_LEN as int) + more);
    }
}

/// The bytes that arrived in some pieces.
pub open spec fn joined(pieces: Seq<Seq<u8>>) -> Seq<u8>
    decreases pieces.len(),
{
    if pieces.len() == 0 {
        Seq::empty()
    } else {
        joined(pieces.drop_last()) + pieces.last()
    }
}

/// A reader, at the start of a frame at first, that looks for the frame each time
/// that a piece has arrived.
pub open spec fn read_in_pieces(pieces: Seq<Seq<u8>>) -> FrameStep
    decreases pieces.len(),
{
    if pieces.len() == 0 {
        FrameStep { awaited: None, rest: Seq::empty(), read: FrameRead::Incomplete }
    } else {
        let before = read_in_pieces(pieces.drop_last());
        read_frame(before.awaited, before.rest + pieces.last())
    }
}

proof fn lemma_part_of_frame_is_incomplete(payload: Seq<u8>, part: Seq<u8>)
    requires
        payload.len() <= MAX_FRAME_LEN,
        part.len() < framed(payload).len(),
        part.is_prefix_of(framed(payload)),
    ensures
        read_frame(None, part).read is Incomplete,
{
    let n = payload.len();
    if part.len() >= HEAD_LEN {
        let whole = framed(payload);
        assert(head_value(part) == n) by {
            assert(part[0] == whole[0] && whole[0] == n / 0x100_0000);
            assert(part[1] == whole[1] && whole[1] == n / 0x1_0000 % 0x100);
            assert(part[2] == whole[2] && whole[2] == n / 0x100 % 0x100);
            assert(part[3] == whole[3] && whole[3] == n % 0x100);
        }
    }
}

proof fn lemma_reading_in_pieces(payload: Seq<u8>, pieces: Seq<Seq<u8>>, more: Seq<u8>)
    requires
        payload.len() <= MAX_FRAME_LEN,
        joined(pieces).len() < framed(payload).len(),
        joined(pieces).is_prefix_of(framed(payload)),
    ensures
        read_frame(read_in_pieces(pieces).awaited, read_in_pieces(pieces).rest + more)
            == read_frame(None, joined(pieces) + more),
    decreases pieces.len(),
{
    if pieces.len() > 0 {
        let earlier = pieces.drop_last();
        let before = read_in_pieces(earlier);
        let last = pieces.last();
        let part = joined(pieces);
        assert(joined(earlier) =~= part.take(joined(earlier).len() as int));
        assert(joined(earlier).is_prefix_of(framed(payload)));
        lemma_reading_in_pieces(payload, earlier, last);
        lemma_reading_in_pieces(payload, earlier, last + more);
        lemma_part_of_frame_is_incomplete(payload, part);
        lemma_frame_pieces_add_up(before.awaited, before.rest + last, more);
        assert((before.rest + last) + more =~= before.rest + (last + more));
        assert(joined(earlier) + (last + more) =~= part + more);
    } else {
        assert(Seq::<u8>::empty() + more =~= more);
    }
}

/// In however many pieces a frame arrives, the reader finds its payload once the
/// last piece is there, and what follows the frame is left alone.
pub proof fn lemma_frame_in_pieces_reads_back(
    payload: Seq<u8>,
    rest: Seq<u8>,
    pieces: Seq<Seq<u8>>,
)
    requires
        payload.len() <= MAX_FRAME_LEN,
        pieces.len() > 0,
        joined(pieces) == framed(payload) + rest,
        joined(pieces.drop_last()).len() < framed(payload).len(),
    ensures
        read_in_pieces(pieces) == (FrameStep {
            awaited: None,
            rest,
            read: FrameRead::Complete(payload),
        }),
{
    let earlier = pieces.drop_last();
    assert forall|i: int| 0 <= i < joined(earlier).len() implies joined(earlier)[i] == framed(
        payload,
    )[i] by {
        assert(joined(pieces)[i] == joined(earlier)[i]);
    }
    assert(joined(earlier) =~= framed(payload).take(joined(earlier).len() as int));
    lemma_reading_in_pieces(payload, earlier, pieces.last());
    lemma_frame_reads_back(payload, rest);
}

/// Declares `bytes::BytesMut`, a growable buffer of bytes.
#[verifier::external_type_specification]
#[verifier::external_body]
pub struct ExBytesMut(bytes::BytesMut);

/// Declares `tokio::codec::length_delimited::LengthDelimitedCodec`.
#[verifier::external_type_specification]
#[verifier::external_body]
pub struct ExLengthDelimitedCodec(tokio::codec::length_delimited::LengthDelimitedCodec);

/// Declares `std::io::Error`.
#[verifier::external_type_specification]
#[verifier::external_body]
pub struct ExIoError(std::io::Error);

/// The bytes that a buffer holds.
pub uninterp spec fn buffered(buffer: BytesMut) -> Seq<u8>;

/// The length of the payload that a codec waits for, where it has consumed the
/// head of a frame and not yet its payload.
pub uninterp spec fn frame_awaited(codec: LengthDelimitedCodec) -> Option<nat>;

/// Whether a codec has its default settings: a length of four bytes, the most
/// significant first and counting the payload alone, and no payload of more than
/// 8 MiB.
pub uninterp spec fn default_framing(codec: LengthDelimitedCodec) -> bool;

/// Calls `LengthDelimitedCodec::new`: the codec has the default settings and is
/// at the start of a frame.
#[verifier::external_body]
pub(crate) fn new_framing() -> (codec: LengthDelimitedCodec)
    ensures
        default_framing(codec),
        frame_awaited(codec) is None,
{
    LengthDelimitedCodec::new()
}

/// Calls `LengthDelimitedCodec::decode` (its `Decoder` impl) and copies the
/// payload out of the buffer type. With the default settings the call does what
/// [`read_frame`] says: to the codec, to the buffer, and in what it returns.
#[verifier::external_body]
pub(crate) fn decode_frame(codec: &mut LengthDelimitedCodec, src: &mut BytesMut) -> (frame: Result<
    Option<Vec<u8>>,
    std::io::Error,
>)
    requires
        default_framing(*old(codec)),
    ensures
        default_framing(*final(codec)),
        frame_awaited(*final(codec)) == read_frame(
            frame_awaited(*old(codec)),
            buffered(*old(src)),
        ).awaited,
        buffered(*final(src)) == read_frame(
            frame_awaited(*old(codec)),
            buffered(*old(src)),
        ).rest,
        match frame {
            Ok(None) => read_frame(
                frame_awaited(*old(codec)),
                buffered(*old(src)),
            ).read is Incomplete,
            Ok(Some(payload)) => read_frame(
                frame_awaited(*old(codec)),
                buffered(*old(src)),
            ).read == FrameRead::Complete(payload@),
            Err(_) => read_frame(
                frame_awaited(*old(codec)),
                buffered(*old(src)),
            ).read is TooBig,
        },
{
    codec.decode(src).map(|frame| frame.map(|payload| payload.to_vec()))
}

/// Calls `LengthDelimitedCodec::encode` (its `Encoder` impl). With the default
/// settings the call appends the frame that carries `payload`, unless the payload
/// is too long: then it fails and appends nothing. It does not touch what the
/// codec waits for.
#[verifier::external_body]
pub(crate) fn encode_frame(
    codec: &mut LengthDelimitedCodec,
    payload: Vec<u8>,
    dst: &mut BytesMut,
) -> (done: Result<(), std::io::Error>)
    requires
        default_framing(*old(codec)),
    ensures
        default_framing(*final(codec)),
        frame_awaited(*final(codec)) == frame_awaited(*old(codec)),
        done is Ok <==> payload@.len() <= MAX_FRAME_LEN,
        buffered(*final(dst)) == (if payload@.len() <= MAX_FRAME_LEN {
            buffered(*old(dst)) + framed(payload@)
        } else {
            buffered(*old(dst))
        }),
{
    codec.encode(bytes::Bytes::from(payload), dst)
}

} // verus!
