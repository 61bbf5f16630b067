//! What devices say to each other, and how it goes over the wire.

use crate::common::Signature;
use crate::crypto::{base64_text, debug_key, is_public_key, shows_key};
use crate::devices::{same_slices, serialize_device_id, to_32, DeviceId, Username};
use crate::path_tree::CompressedPathTree;
use crate::protocol::{TransferOffer, TransferOfferRequest};
use crate::text::{quote, quoted_text};
use crate::wire::{
    blob_bytes, bool_bytes, encode_blob, encode_bool, encode_text, encode_u32, encode_u64, law_blob_read_back,
    law_bool_read_back, law_text_read_back, law_u32_read_back, law_u64_read_back, push_all, read_blob, read_bool, read_text,
    read_u32, read_u64, take_blob, take_bool, take_text, take_u32, take_u64, text_bytes, varint,
};
use vstd::prelude::*;
use vstd::string::StringExecFns;

verus! {

/// The identity of a transfer or of a container.
#[derive(Clone, Copy, Debug)]
pub struct Uuid {
    bytes: [u8; 16],
}

impl View for Uuid {
    type V = Seq<u8>;

    closed spec fn view(&self) -> Seq<u8> {
        self.bytes@
    }
}

impl Uuid {
    /// The identity made of given bytes.
    pub fn from_bytes(bytes: &[u8; 16]) -> (id: Uuid)
        ensures
            id@ == bytes@,
    {
        Uuid { bytes: *bytes }
    }

    /// The bytes of the identity.
    pub fn as_bytes(&self) -> (bytes: &[u8; 16])
        ensures
            bytes@ == self@,
    {
        &self.bytes
    }

    fn from_slice(bytes: &[u8]) -> (id: Option<Uuid>)
        ensures
            match id {
                Some(u) => u@ == bytes@,
                None => bytes@.len() != 16,
            },
    {
        if bytes.len() != 16 {
            return None;
        }
        let mut array: [u8; 16] = [0u8;16];
        let mut i: usize = 0;
        while i < 16
            invariant
                i <= 16,
                bytes@.len() == 16,
                array@.len() == 16,
                forall|j: int| 0 <= j < i ==> array@[j] == bytes@[j],
            decreases 16 - i,
        {
            array[i] = bytes[i];
            i = i + 1;
        }
        assert(array@ =~= bytes@);
        Some(Uuid { bytes: array })
    }
}

fn to_64(bytes: &[u8]) -> (array: Option<[u8; 64]>)
    ensures
        match array {
            Some(a) => a@ == bytes@,
            None => bytes@.len() != 64,
        },
{
    if bytes.len() != 64 {
        return None;
    }
    let mut array: [u8; 64] = [0u8;64];
    let mut i: usize = 0;
    while i < 64
        invariant
            i <= 64,
            bytes@.len() == 64,
            array@.len() == 64,
            forall|j: int| 0 <= j < i ==> array@[j] == bytes@[j],
        decreases 64 - i,
    {
        array[i] = bytes[i];
        i = i + 1;
    }
    assert(array@ =~= bytes@);
    Some(array)
}

/// What an offer holds, the tree in its compressed form.
pub struct Offer {
    pub transfer_name: Seq<char>,
    pub transfer_id: Seq<u8>,
    pub entries_num: u32,
    pub total_size: u64,
    pub tree: Seq<u8>,
}

/// What a message says.
pub enum Message {
    Hello { id: Seq<u8>, username: Seq<char>, signature: Seq<u8> },
    TransferOfferMsg { offer: Offer },
    Accepted,
    Rejected { reason: Option<Seq<char>> },
    TransferStream { transfer_id: Seq<u8> },
    ContainerStream { id: Seq<u8> },
}

/// A message to another device.
#[derive(Debug)]
pub enum NetMessage {
    /// Who is speaking, with a signature to show it.
    Hello { id: DeviceId, username: Username, signature: Signature },
    /// An offer of files.
    TransferOfferMsg { offer: TransferOffer<CompressedPathTree> },
    /// The request is granted.
    Accepted,
    /// The request is refused.
    Rejected { reason: Option<String> },
    /// What follows on the stream belongs to a transfer.
    TransferStream { transfer_id: Uuid },
    /// What follows on the stream belongs to a container.
    ContainerStream { id: Uuid },
}

/// What an offer holds.
pub open spec fn offer_view(offer: TransferOffer<CompressedPathTree>) -> Offer {
    Offer {
        transfer_name: offer.transfer_name@,
        transfer_id: offer.transfer_id@,
        entries_num: offer.entries_num,
        total_size: offer.total_size,
        tree: offer.tree@,
    }
}

/// The text that may be there.
pub open spec fn text_view(text: Option<String>) -> Option<Seq<char>> {
    match text {
        Some(t) => Some(t@),
        None => None,
    }
}

impl View for NetMessage {
    type V = Message;

    open spec fn view(&self) -> Message {
        match *self {
            NetMessage::Hello { id, username, signature } => Message::Hello {
                id: id@,
                username: username@,
                signature: signature@,
            },
            NetMessage::TransferOfferMsg { offer } => Message::TransferOfferMsg { offer: offer_view(offer) },
            NetMessage::Accepted => Message::Accepted,
            NetMessage::Rejected { reason } => Message::Rejected { reason: text_view(reason) },
            NetMessage::TransferStream { transfer_id } => Message::TransferStream { transfer_id: transfer_id@ },
            NetMessage::ContainerStream { id } => Message::ContainerStream { id: id@ },
        }
    }
}

/// The bytes of a text that may be there.
pub open spec fn maybe_text_bytes(text: Option<Seq<char>>) -> Seq<u8> {
    match text {
        Some(t) => bool_bytes(true) + text_bytes(t),
        None => bool_bytes(false),
    }
}

/// The bytes of an offer.
pub open spec fn offer_bytes(offer: Offer) -> Seq<u8> {
    text_bytes(offer.transfer_name) + blob_bytes(offer.transfer_id) + varint(offer.entries_num as nat) + varint(
        offer.total_size as nat,
    ) + blob_bytes(offer.tree)
}

/// The bytes of a message: the number of its kind, then what it holds.
pub open spec fn message_bytes(message: Message) -> Seq<u8> {
    match message {
        Message::Hello { id, username, signature } => varint(0) + blob_bytes(id) + text_bytes(username) + blob_bytes(
            signature,
        ),
        Message::TransferOfferMsg { offer } => varint(1) + offer_bytes(offer),
        Message::Accepted => varint(2),
        Message::Rejected { reason } => varint(3) + maybe_text_bytes(reason),
        Message::TransferStream { transfer_id } => varint(4) + blob_bytes(transfer_id),
        Message::ContainerStream { id } => varint(5) + blob_bytes(id),
    }
}

/// Reads a text that may be there, and gives the bytes that follow.
pub open spec fn read_maybe_text(bytes: Seq<u8>) -> Option<(Option<Seq<char>>, Seq<u8>)> {
    match read_bool(bytes) {
        None => None,
        Some((there, used)) => {
            let rest = bytes.skip(used as int);
            if there {
                match read_text(rest) {
                    None => None,
                    Some((text, n)) => Some((Some(text), rest.skip(n as int))),
                }
            } else {
                Some((None, rest))
            }
        },
    }
}

/// Reads an offer.
pub open spec fn read_offer(bytes: Seq<u8>) -> Option<Offer> {
    match read_text(bytes) {
        None => None,
        Some((transfer_name, a)) => {
            let behind_name = bytes.skip(a as int);
            match read_blob(behind_name) {
                None => None,
                Some((transfer_id, b)) => {
                    let behind_id = behind_name.skip(b as int);
                    match read_u32(behind_id) {
                        None => None,
                        Some((entries_num, c)) => {
                            let behind_num = behind_id.skip(c as int);
                            match read_u64(behind_num) {
                                None => None,
                                Some((total_size, d)) => match read_blob(behind_num.skip(d as int)) {
                                    None => None,
                                    Some((tree, e)) => if transfer_id.len() == 16 {
                                        Some(
                                            Offer {
                                                transfer_name,
                                                transfer_id,
                                                entries_num: entries_num as u32,
                                                total_size: total_size as u64,
                                                tree,
                                            },
                                        )
                                    } else {
                                        None
                                    },
                                },
                            }
                        },
                    }
                },
            }
        },
    }
}

/// Reads who is speaking.
pub open spec fn read_hello(bytes: Seq<u8>) -> Option<Message> {
    match read_blob(bytes) {
        None => None,
        Some((id, a)) => {
            let behind_id = bytes.skip(a as int);
            match read_text(behind_id) {
                None => None,
                Some((username, b)) => match read_blob(behind_id.skip(b as int)) {
                    None => None,
                    Some((signature, c)) => if id.len() == 32 && is_public_key(id) && signature.len() == 64 {
                        Some(Message::Hello { id, username, signature })
                    } else {
                        None
                    },
                },
            }
        },
    }
}

/// Reads an identity.
pub open spec fn read_uuid(bytes: Seq<u8>) -> Option<Seq<u8>> {
    match read_blob(bytes) {
        None => None,
        Some((id, used)) => if id.len() == 16 {
            Some(id)
        } else {
            None
        },
    }
}

/// Reads a message. Bytes behind it are of no concern.
pub open spec fn read_message(bytes: Seq<u8>) -> Option<Message> {
    match read_u32(bytes) {
        None => None,
        Some((kind, used)) => {
            let rest = bytes.skip(used as int);
            if kind == 0 {
                read_hello(rest)
            } else if kind == 1 {
                match read_offer(rest) {
                    Some(offer) => Some(Message::TransferOfferMsg { offer }),
                    None => None,
                }
            } else if kind == 2 {
                Some(Message::Accepted)
            } else if kind == 3 {
                match read_maybe_text(rest) {
                    Some((reason, behind)) => Some(Message::Rejected { reason }),
                    None => None,
                }
            } else if kind == 4 {
                match read_uuid(rest) {
                    Some(transfer_id) => Some(Message::TransferStream { transfer_id }),
                    None => None,
                }
            } else if kind == 5 {
                match read_uuid(rest) {
                    Some(id) => Some(Message::ContainerStream { id }),
                    None => None,
                }
            } else {
                None
            }
        },
    }
}

/// Whether keys, signatures and identities have their sizes, and keys are keys.
pub open spec fn message_sound(message: Message) -> bool {
    match message {
        Message::Hello { id, username, signature } => id.len() == 32 && is_public_key(id) && signature.len() == 64,
        Message::TransferOfferMsg { offer } => offer.transfer_id.len() == 16,
        Message::TransferStream { transfer_id } => transfer_id.len() == 16,
        Message::ContainerStream { id } => id.len() == 16,
        _ => true,
    }
}

proof fn lemma_offer_back(offer: Offer, rest: Seq<u8>)
    requires
        offer.transfer_id.len() == 16,
        offer_bytes(offer).len() <= usize::MAX,
    ensures
        read_offer(offer_bytes(offer) + rest) == Some(offer),
{
    let e = blob_bytes(offer.tree) + rest;
    let d = varint(offer.total_size as nat) + e;
    let c = varint(offer.entries_num as nat) + d;
    let b = blob_bytes(offer.transfer_id) + c;
    let bytes = offer_bytes(offer) + rest;
    assert(bytes =~= text_bytes(offer.transfer_name) + b);
    law_text_read_back(offer.transfer_name, b);
    assert(bytes.skip(text_bytes(offer.transfer_name).len() as int) =~= b);
    law_blob_read_back(offer.transfer_id, c);
    assert(b.skip(blob_bytes(offer.transfer_id).len() as int) =~= c);
    law_u32_read_back(offer.entries_num as nat, d);
    assert(c.skip(varint(offer.entries_num as nat).len() as int) =~= d);
    law_u64_read_back(offer.total_size as nat, e);
    assert(d.skip(varint(offer.total_size as nat).len() as int) =~= e);
    law_blob_read_back(offer.tree, rest);
}

proof fn lemma_hello_back(id: Seq<u8>, username: Seq<char>, signature: Seq<u8>, rest: Seq<u8>)
    requires
        id.len() == 32,
        is_public_key(id),
        signature.len() == 64,
        text_bytes(username).len() <= usize::MAX,
    ensures
        read_hello(blob_bytes(id) + text_bytes(username) + blob_bytes(signature) + rest) == Some(
            Message::Hello { id, username, signature },
        ),
{
    let c = blob_bytes(signature) + rest;
    let b = text_bytes(username) + c;
    let bytes = blob_bytes(id) + text_bytes(username) + blob_bytes(signature) + rest;
    assert(bytes =~= blob_bytes(id) + b);
    law_blob_read_back(id, b);
    assert(bytes.skip(blob_bytes(id).len() as int) =~= b);
    law_text_read_back(username, c);
    assert(b.skip(text_bytes(username).len() as int) =~= c);
    law_blob_read_back(signature, rest);
}

proof fn lemma_maybe_text_back(text: Option<Seq<char>>, rest: Seq<u8>)
    requires
        maybe_text_bytes(text).len() <= usize::MAX,
    ensures
        read_maybe_text(maybe_text_bytes(text) + rest) == Some((text, rest)),
{
    let bytes = maybe_text_bytes(text) + rest;
    match text {
        Some(t) => {
            let behind = text_bytes(t) + rest;
            assert(bytes =~= bool_bytes(true) + behind);
            law_bool_read_back(true, behind);
            assert(bytes.skip(1) =~= behind);
            law_text_read_back(t, rest);
            assert(behind.skip(text_bytes(t).len() as int) =~= rest);
        },
        None => {
            law_bool_read_back(false, rest);
            assert(bytes.skip(1) =~= rest);
        },
    }
}

/// What is read of the bytes of a message is that message, whatever follows them.
pub proof fn law_message_read_back(message: Message, rest: Seq<u8>)
    requires
        message_sound(message),
        message_bytes(message).len() <= usize::MAX,
    ensures
        read_message(message_bytes(message) + rest) == Some(message),
{
    let bytes = message_bytes(message) + rest;
    match message {
        Message::Hello { id, username, signature } => {
            let body = blob_bytes(id) + text_bytes(username) + blob_bytes(signature) + rest;
            assert(bytes =~= varint(0) + body);
            law_u32_read_back(0, body);
            assert(bytes.skip(varint(0).len() as int) =~= body);
            lemma_hello_back(id, username, signature, rest);
        },
        Message::TransferOfferMsg { offer } => {
            let body = offer_bytes(offer) + rest;
            assert(bytes =~= varint(1) + body);
            law_u32_read_back(1, body);
            assert(bytes.skip(varint(1).len() as int) =~= body);
            lemma_offer_back(offer, rest);
        },
        Message::Accepted => {
            law_u32_read_back(2, rest);
        },
        Message::Rejected { reason } => {
            let body = maybe_text_bytes(reason) + rest;
            assert(bytes =~= varint(3) + body);
            law_u32_read_back(3, body);
            assert(bytes.skip(varint(3).len() as int) =~= body);
            lemma_maybe_text_back(reason, rest);
        },
        Message::TransferStream { transfer_id } => {
            let body = blob_bytes(transfer_id) + rest;
            assert(bytes =~= varint(4) + body);
            law_u32_read_back(4, body);
            assert(bytes.skip(varint(4).len() as int) =~= body);
            law_blob_read_back(transfer_id, rest);
        },
        Message::ContainerStream { id } => {
            let body = blob_bytes(id) + rest;
            assert(bytes =~= varint(5) + body);
            law_u32_read_back(5, body);
            assert(bytes.skip(varint(5).len() as int) =~= body);
            law_blob_read_back(id, rest);
        },
    }
}

/// A length in four bytes, most significant first.
pub open spec fn length_bytes(len: nat) -> Seq<u8> {
    seq![
        (len / 0x100_0000 % 0x100) as u8,
        (len / 0x1_0000 % 0x100) as u8,
        (len / 0x100 % 0x100) as u8,
        (len % 0x100) as u8,
    ]
}

/// The length that four bytes stand for.
pub open spec fn length_of(header: Seq<u8>) -> nat {
    (header[0] * 0x100_0000 + header[1] * 0x1_0000 + header[2] * 0x100 + header[3]) as nat
}

/// A payload with its length before it. Of the length the lower 32 bits are kept.
pub open spec fn frame_bytes(payload: Seq<u8>) -> Seq<u8> {
    length_bytes(payload.len()) + payload
}

/// Reads a framed payload, and gives the bytes that follow it.
pub open spec fn read_frame(bytes: Seq<u8>) -> Option<(Seq<u8>, Seq<u8>)> {
    if bytes.len() < 4 || bytes.len() < 4 + length_of(bytes) {
        None
    } else {
        let end = (4 + length_of(bytes)) as int;
        Some((bytes.subrange(4, end), bytes.skip(end)))
    }
}

/// What is read of a framed payload is that payload, and what follows it is left.
pub proof fn law_frame_read_back(payload: Seq<u8>, rest: Seq<u8>)
    requires
        payload.len() <= u32::MAX,
    ensures
        read_frame(frame_bytes(payload) + rest) == Some((payload, rest)),
{
    let bytes = frame_bytes(payload) + rest;
    let len = payload.len();
    assert(bytes[0] == (len / 0x100_0000 % 0x100) as u8);
    assert(bytes[1] == (len / 0x1_0000 % 0x100) as u8);
    assert(bytes[2] == (len / 0x100 % 0x100) as u8);
    assert(bytes[3] == (len % 0x100) as u8);
    assert(length_of(bytes) == len);
    let end = 4 + len as int;
    assert(bytes.subrange(4, end) =~= payload);
    assert(bytes.skip(end) =~= rest);
}

/// A payload with its length before it.
pub fn frame(payload: &[u8]) -> (bytes: Vec<u8>)
    ensures
        bytes@ == frame_bytes(payload@),
{
    let len: usize = payload.len();
    let mut bytes: Vec<u8> = Vec::new();
    bytes.push((len / 0x100_0000 % 0x100) as u8);
    bytes.push((len / 0x1_0000 % 0x100) as u8);
    bytes.push((len / 0x100 % 0x100) as u8);
    bytes.push((len % 0x100) as u8);
    bytes.extend_from_slice(payload);
    assert(bytes@ =~= frame_bytes(payload@));
    bytes
}

/// The length of the payload that follows a header.
pub fn frame_len(header: &[u8; 4]) -> (len: u32)
    ensures
        len == length_of(header@),
{
    header[0] as u32 * 0x100_0000 + header[1] as u32 * 0x1_0000 + header[2] as u32 * 0x100 + header[3] as u32
}

/// What can be sent over a stream as a framed payload.
pub trait StreamableMessage: Sized + View {
    /// Whether this can be sent at all.
    spec fn sendable(&self) -> bool;

    /// The payload.
    spec fn payload(&self) -> Seq<u8>;

    /// What a payload says.
    spec fn parsed(payload: Seq<u8>) -> Option<Self::V>;

    /// What a payload says is what it was made of.
    proof fn law_payload_read_back(&self)
        requires
            self.sendable(),
            self.payload().len() <= usize::MAX,
        ensures
            Self::parsed(self.payload()) == Some(self@),
    ;

    /// What the payload of a frame says, where it says anything.
    fn read(payload: &[u8]) -> (message: Option<Self>)
        ensures
            match message {
                Some(m) => Self::parsed(payload@) == Some(m@),
                None => Self::parsed(payload@) is None,
            },
    ;

    /// The frame that says this, where it can be sent.
    fn write(&self) -> (frame: Option<Vec<u8>>)
        ensures
            match frame {
                Some(f) => f@ == frame_bytes(self.payload()),
                None => !self.sendable(),
            },
    ;
}

fn push_maybe_text(bytes: &mut Vec<u8>, text: &Option<String>)
    ensures
        final(bytes)@ == old(bytes)@ + maybe_text_bytes(text_view(*text)),
{
    match text {
        Some(t) => {
            push_all(bytes, encode_bool(true));
            push_all(bytes, encode_text(t.as_str()));
        },
        None => {
            push_all(bytes, encode_bool(false));
        },
    }
    assert(bytes@ =~= old(bytes)@ + maybe_text_bytes(text_view(*text)));
}

fn push_offer(bytes: &mut Vec<u8>, offer: &TransferOffer<CompressedPathTree>)
    ensures
        final(bytes)@ == old(bytes)@ + offer_bytes(offer_view(*offer)),
{
    push_all(bytes, encode_text(offer.transfer_name.as_str()));
    push_all(bytes, encode_blob(offer.transfer_id.bytes.as_slice()));
    push_all(bytes, encode_u32(offer.entries_num));
    push_all(bytes, encode_u64(offer.total_size));
    push_all(bytes, encode_blob(offer.tree.as_bytes().as_slice()));
    assert(bytes@ =~= old(bytes)@ + offer_bytes(offer_view(*offer)));
}

fn take_maybe_text(bytes: &[u8]) -> (taken: Option<Option<String>>)
    ensures
        match taken {
            Some(text) => read_maybe_text(bytes@) matches Some((t, rest)) && t == text_view(text),
            None => read_maybe_text(bytes@) is None,
        },
{
    match take_bool(bytes) {
        None => None,
        Some((there, rest)) => if there {
            match take_text(rest) {
                None => None,
                Some((text, _)) => Some(Some(text)),
            }
        } else {
            Some(None)
        },
    }
}

fn take_offer(bytes: &[u8]) -> (taken: Option<TransferOffer<CompressedPathTree>>)
    ensures
        match taken {
            Some(offer) => read_offer(bytes@) == Some(offer_view(offer)),
            None => read_offer(bytes@) is None,
        },
{
    let (transfer_name, rest) = match take_text(bytes) {
        Some(taken) => taken,
        None => {
            return None;
        },
    };
    let (id, rest) = match take_blob(rest) {
        Some(taken) => taken,
        None => {
            return None;
        },
    };
    let (entries_num, rest) = match take_u32(rest) {
        Some(taken) => taken,
        None => {
            return None;
        },
    };
    let (total_size, rest) = match take_u64(rest) {
        Some(taken) => taken,
        None => {
            return None;
        },
    };
    let (tree, _) = match take_blob(rest) {
        Some(taken) => taken,
        None => {
            return None;
        },
    };
    let transfer_id = match Uuid::from_slice(id) {
        Some(transfer_id) => transfer_id,
        None => {
            return None;
        },
    };
    assert(transfer_id.bytes@.len() == 16);
    let mut copy: Vec<u8> = Vec::new();
    copy.extend_from_slice(tree);
    assert(copy@ =~= tree@);
    Some(TransferOffer { transfer_name, transfer_id, entries_num, total_size, tree: CompressedPathTree::from_bytes(copy) })
}

fn take_hello(bytes: &[u8]) -> (taken: Option<NetMessage>)
    ensures
        match taken {
            Some(message) => read_hello(bytes@) == Some(message@),
            None => read_hello(bytes@) is None,
        },
{
    let (id, rest) = match take_blob(bytes) {
        Some(taken) => taken,
        None => {
            return None;
        },
    };
    let (username, rest) = match take_text(rest) {
        Some(taken) => taken,
        None => {
            return None;
        },
    };
    let (signature, _) = match take_blob(rest) {
        Some(taken) => taken,
        None => {
            return None;
        },
    };
    let key = match to_32(id) {
        Some(key) => key,
        None => {
            return None;
        },
    };
    let id = match DeviceId::from_bytes(&key) {
        Some(id) => id,
        None => {
            return None;
        },
    };
    match to_64(signature) {
        Some(array) => {
            assert(key@.len() == 32 && array@.len() == 64);
            Some(
                NetMessage::Hello {
                    id,
                    username: Username::from_remote(username),
                    signature: Signature::from_bytes(&array),
                },
            )
        },
        None => None,
    }
}

fn take_uuid(bytes: &[u8]) -> (taken: Option<Uuid>)
    ensures
        match taken {
            Some(id) => read_uuid(bytes@) == Some(id@),
            None => read_uuid(bytes@) is None,
        },
{
    match take_blob(bytes) {
        None => None,
        Some((id, _)) => {
            let taken = Uuid::from_slice(id);
            assert(taken matches Some(u) ==> u.bytes@.len() == 16);
            taken
        },
    }
}

impl NetMessage {
    /// Whether the message is one that a device can send: its key is a key.
    pub open spec fn wf(&self) -> bool {
        self matches NetMessage::Hello { id, .. } ==> id.wf()
    }

    /// The bytes of this message.
    pub fn to_bytes(&self) -> (bytes: Vec<u8>)
        ensures
            bytes@ == message_bytes(self@),
            self.wf() ==> read_message(bytes@) == Some(self@),
    {
        let mut bytes: Vec<u8> = Vec::new();
        match self {
            NetMessage::Hello { id, username, signature } => {
                push_all(&mut bytes, encode_u32(0));
                push_all(&mut bytes, encode_blob(id.as_bytes().as_slice()));
                push_all(&mut bytes, encode_text(username.to_string().as_str()));
                push_all(&mut bytes, encode_blob(signature.as_bytes().as_slice()));
                assert(id@.len() == 32 && signature@.len() == 64);
            },
            NetMessage::TransferOfferMsg { offer } => {
                push_all(&mut bytes, encode_u32(1));
                push_offer(&mut bytes, offer);
                assert(offer.transfer_id.bytes@.len() == 16);
            },
            NetMessage::Accepted => {
                push_all(&mut bytes, encode_u32(2));
            },
            NetMessage::Rejected { reason } => {
                push_all(&mut bytes, encode_u32(3));
                push_maybe_text(&mut bytes, reason);
            },
            NetMessage::TransferStream { transfer_id } => {
                push_all(&mut bytes, encode_u32(4));
                push_all(&mut bytes, encode_blob(transfer_id.bytes.as_slice()));
                assert(transfer_id.bytes@.len() == 16);
            },
            NetMessage::ContainerStream { id } => {
                push_all(&mut bytes, encode_u32(5));
                push_all(&mut bytes, encode_blob(id.bytes.as_slice()));
                assert(id.bytes@.len() == 16);
            },
        }
        assert(bytes@ =~= message_bytes(self@));
        let length: usize = bytes.len();
        proof {
            if self.wf() {
                assert(message_bytes(self@).len() == length);
                law_message_read_back(self@, Seq::empty());
                assert(bytes@ + Seq::<u8>::empty() =~= bytes@);
            }
        }
        bytes
    }

    /// The message that bytes say, where they say one.
    pub fn from_bytes(bytes: &[u8]) -> (message: Option<NetMessage>)
        ensures
            match message {
                Some(m) => read_message(bytes@) == Some(m@),
                None => read_message(bytes@) is None,
            },
    {
        let (kind, rest) = match take_u32(bytes) {
            Some(taken) => taken,
            None => {
                return None;
            },
        };
        if kind == 0 {
            take_hello(rest)
        } else if kind == 1 {
            match take_offer(rest) {
                Some(offer) => Some(NetMessage::TransferOfferMsg { offer }),
                None => None,
            }
        } else if kind == 2 {
            Some(NetMessage::Accepted)
        } else if kind == 3 {
            match take_maybe_text(rest) {
                Some(reason) => Some(NetMessage::Rejected { reason }),
                None => None,
            }
        } else if kind == 4 {
            match take_uuid(rest) {
                Some(transfer_id) => Some(NetMessage::TransferStream { transfer_id }),
                None => None,
            }
        } else if kind == 5 {
            match take_uuid(rest) {
                Some(id) => Some(NetMessage::ContainerStream { id }),
                None => None,
            }
        } else {
            None
        }
    }
}

impl StreamableMessage for NetMessage {
    open spec fn sendable(&self) -> bool {
        self.wf()
    }

    open spec fn payload(&self) -> Seq<u8> {
        message_bytes(self@)
    }

    open spec fn parsed(payload: Seq<u8>) -> Option<Message> {
        read_message(payload)
    }

    proof fn law_payload_read_back(&self) {
        lemma_sound(*self);
        law_message_read_back(self@, Seq::empty());
        assert(message_bytes(self@) + Seq::<u8>::empty() =~= message_bytes(self@));
    }

    fn read(payload: &[u8]) -> (message: Option<NetMessage>) {
        NetMessage::from_bytes(payload)
    }

    fn write(&self) -> (bytes: Option<Vec<u8>>)
        ensures
            bytes is Some,
    {
        Some(frame(self.to_bytes().as_slice()))
    }
}

proof fn lemma_sound(message: NetMessage)
    requires
        message.wf(),
    ensures
        message_sound(message@),
{
    match message {
        NetMessage::Hello { id, username, signature } => {
            crate::devices::lemma_id_len(id);
            crate::common::lemma_signature_len(signature);
        },
        NetMessage::TransferOfferMsg { offer } => {
            assert(offer.transfer_id.bytes@.len() == 16);
        },
        NetMessage::TransferStream { transfer_id } => {
            assert(transfer_id.bytes@.len() == 16);
        },
        NetMessage::ContainerStream { id } => {
            assert(id.bytes@.len() == 16);
        },
        _ => {},
    }
}

/// What the user answers to a request.
#[derive(Debug)]
pub enum UiResponse {
    Accept,
    Reject { reason: Option<String> },
}

impl Clone for UiResponse {
    fn clone(&self) -> (copy: UiResponse)
        ensures
            answer_of(copy) == answer_of(*self),
    {
        match self {
            UiResponse::Accept => UiResponse::Accept,
            UiResponse::Reject { reason } => UiResponse::Reject {
                reason: match reason {
                    Some(text) => Some(text.clone()),
                    None => None,
                },
            },
        }
    }
}

/// The message that carries an answer.
pub open spec fn answer_of(response: UiResponse) -> Message {
    match response {
        UiResponse::Accept => Message::Accepted,
        UiResponse::Reject { reason } => Message::Rejected { reason: text_view(reason) },
    }
}

impl From<UiResponse> for NetMessage {
    fn from(resp: UiResponse) -> (message: NetMessage) {
        match resp {
            UiResponse::Accept => NetMessage::Accepted,
            UiResponse::Reject { reason } => NetMessage::Rejected { reason },
        }
    }
}

impl vstd::std_specs::convert::FromSpecImpl<UiResponse> for NetMessage {
    open spec fn obeys_from_spec() -> bool {
        true
    }

    open spec fn from_spec(resp: UiResponse) -> NetMessage {
        match resp {
            UiResponse::Accept => NetMessage::Accepted,
            UiResponse::Reject { reason } => NetMessage::Rejected { reason },
        }
    }
}

/// A device that asks to be let in.
#[derive(Debug)]
pub struct ConnectionOffer {
    pub username: Username,
    pub remote_device_id: DeviceId,
    pub nearby: bool,
}

impl Clone for ConnectionOffer {
    fn clone(&self) -> (copy: ConnectionOffer)
        ensures
            copy.username@ == self.username@,
            copy.remote_device_id == self.remote_device_id,
            copy.nearby == self.nearby,
    {
        ConnectionOffer {
            username: self.username.clone(),
            remote_device_id: self.remote_device_id,
            nearby: self.nearby,
        }
    }
}

/// What the user is told of.
#[derive(Debug)]
pub enum AppEvent {
    FoundNearby,
    Connected { device_id: DeviceId },
    ConnectionOffer { offer: ConnectionOffer },
    IncomingTransferOffer { offer: TransferOfferRequest },
    TransferOfferDelivered,
    DeviceWentOffline { device_id: DeviceId },
    TransferUpdated,
}


/// The name that a log gives an event.
pub open spec fn event_label(event: AppEvent) -> Seq<char> {
    match event {
        AppEvent::FoundNearby => "FoundNearby"@,
        AppEvent::Connected { .. } => "Connected"@,
        AppEvent::ConnectionOffer { .. } => "NewConnectionRequest"@,
        AppEvent::IncomingTransferOffer { .. } => "IncomingTransferOffer"@,
        AppEvent::TransferOfferDelivered => "TransferOfferDelivered"@,
        AppEvent::DeviceWentOffline { .. } => "DeviceWentOffline"@,
        AppEvent::TransferUpdated => "TransferUpdated"@,
    }
}

/// The device that an event is about, in base64, where a log shows it so.
pub open spec fn event_device(event: AppEvent) -> Option<Seq<char>> {
    match event {
        AppEvent::Connected { device_id } => Some(base64_text(device_id@)),
        AppEvent::ConnectionOffer { offer } => Some(base64_text(offer.remote_device_id@)),
        _ => None,
    }
}

/// An event as a log shows it, given the text of what it holds that is shown as it is:
/// the offer of a transfer, or the device that went offline.
pub open spec fn event_text(event: AppEvent, held: Seq<char>) -> Seq<char> {
    let label = event_label(event);
    match event {
        AppEvent::Connected { device_id } => label + " { device_id: "@ + quoted_text(base64_text(device_id@))
            + " }"@,
        AppEvent::ConnectionOffer { offer } => label + " { username: "@ + quoted_text(offer.username@)
            + ", remote_device_id: "@ + quoted_text(base64_text(offer.remote_device_id@)) + ", nearby: "@ + (
        if offer.nearby {
            "true"@
        } else {
            "false"@
        }) + ", respond: "@ + quoted_text("Sender { .. }"@) + " }"@,
        AppEvent::IncomingTransferOffer { .. } => label + " { offer: "@ + held + " }"@,
        AppEvent::DeviceWentOffline { .. } => label + " { device_id: "@ + held + " }"@,
        _ => label,
    }
}

/// Whether a text shows the device that an event says went offline.
pub open spec fn shows_lost_device(event: AppEvent, held: Seq<char>) -> bool {
    event matches AppEvent::DeviceWentOffline { device_id } ==> is_public_key(device_id@) ==> shows_key(
        held,
        device_id@,
    )
}

impl AppEvent {
    /// This event as a log shows it, with the text of what it holds that is shown as it
    /// is.
    pub fn text_with(&self, held: &str) -> (text: String)
        ensures
            text@ == event_text(*self, held@),
    {
        let mut text = String::from_str(self.label());
        match self {
            AppEvent::Connected { device_id } => {
                text.append(" { device_id: ");
                text.append(quote(serialize_device_id(device_id).as_str()).as_str());
                text.append(" }");
            },
            AppEvent::ConnectionOffer { offer } => {
                text.append(" { username: ");
                text.append(quote(offer.username.to_string().as_str()).as_str());
                text.append(", remote_device_id: ");
                text.append(quote(serialize_device_id(&offer.remote_device_id).as_str()).as_str());
                text.append(", nearby: ");
                text.append(
                    if offer.nearby {
                        "true"
                    } else {
                        "false"
                    },
                );
                text.append(", respond: ");
                text.append(quote("Sender { .. }").as_str());
                text.append(" }");
            },
            AppEvent::IncomingTransferOffer { .. } => {
                text.append(" { offer: ");
                text.append(held);
                text.append(" }");
            },
            AppEvent::DeviceWentOffline { .. } => {
                text.append(" { device_id: ");
                text.append(held);
                text.append(" }");
            },
            _ => {},
        }
        text
    }

    /// This event as a log shows it, given the text of the offer where it is of one. A
    /// device that went offline is shown by its key, whose text differs from machine to
    /// machine behind the bytes.
    pub fn debug_text(&self, offer: &str) -> (text: String)
        ensures
            !(self is DeviceWentOffline) ==> text@ == event_text(*self, offer@),
            self is DeviceWentOffline ==> exists|held: Seq<char>|
                text@ == #[trigger] event_text(*self, held) && shows_lost_device(*self, held),
    {
        match self {
            AppEvent::DeviceWentOffline { device_id } => {
                let held = debug_key(device_id.as_bytes());
                let text = self.text_with(held.as_str());
                assert(shows_lost_device(*self, held@));
                text
            },
            _ => self.text_with(offer),
        }
    }

    /// The name that a log gives this event.
    pub fn label(&self) -> (label: &'static str)
        ensures
            label@ == event_label(*self),
    {
        match self {
            AppEvent::FoundNearby => "FoundNearby",
            AppEvent::Connected { .. } => "Connected",
            AppEvent::ConnectionOffer { .. } => "NewConnectionRequest",
            AppEvent::IncomingTransferOffer { .. } => "IncomingTransferOffer",
            AppEvent::TransferOfferDelivered => "TransferOfferDelivered",
            AppEvent::DeviceWentOffline { .. } => "DeviceWentOffline",
            AppEvent::TransferUpdated => "TransferUpdated",
        }
    }

    /// The device that this event is about, as a log shows it.
    pub fn device_text(&self) -> (text: Option<String>)
        ensures
            text_view(text) == event_device(*self),
    {
        match self {
            AppEvent::Connected { device_id } => Some(serialize_device_id(device_id)),
            AppEvent::ConnectionOffer { offer } => Some(serialize_device_id(&offer.remote_device_id)),
            _ => None,
        }
    }
}


/// A hexadecimal digit.
pub open spec fn hex_digit(d: nat) -> char {
    if d < 10 {
        (48 + d) as char
    } else {
        (87 + d) as char
    }
}

/// Bytes, from position `from` on, in hexadecimal digits, with hyphens as the texts
/// of identities have them.
pub open spec fn uuid_text_from(bytes: Seq<u8>, from: nat) -> Seq<char>
    decreases bytes.len() - from,
{
    if from >= bytes.len() {
        Seq::empty()
    } else {
        let byte = bytes[from as int] as nat;
        let pair = seq![hex_digit(byte / 16), hex_digit(byte % 16)];
        let lead = if from == 4 || from == 6 || from == 8 || from == 10 {
            seq!['-'] + pair
        } else {
            pair
        };
        lead + uuid_text_from(bytes, from + 1)
    }
}

fn hex_char(d: u8) -> (c: char)
    requires
        d < 16,
    ensures
        c == hex_digit(d as nat),
{
    if d < 10 {
        (48 + d) as char
    } else {
        (87 + d) as char
    }
}

/// `uuid::Uuid::new_v4`: any identity of version four may come out. It panics where
/// the system has no random numbers to give.
#[verifier::external_body]
fn random_uuid() -> (bytes: [u8; 16])
    ensures
        bytes@[6] / 16 == 4,
        bytes@[8] / 64 == 2,
{
    uuid::Uuid::new_v4().into_bytes()
}

impl Uuid {
    /// A new identity. Which one is left open.
    pub fn new_v4() -> (id: Uuid)
        ensures
            id@[6] / 16 == 4,
            id@[8] / 64 == 2,
    {
        Uuid { bytes: random_uuid() }
    }

    /// Whether two identities are one.
    pub fn same_as(&self, other: &Uuid) -> (same: bool)
        ensures
            same == (self@ == other@),
    {
        same_slices(self.bytes.as_slice(), other.bytes.as_slice())
    }

    /// The text of the identity.
    pub fn to_string(&self) -> (text: String)
        ensures
            text@ == uuid_text_from(self@, 0),
    {
        let mut text = String::new();
        let mut i: usize = 0;
        while i < 16
            invariant
                i <= 16,
                self@.len() == 16,
                text@ + uuid_text_from(self@, i as nat) == uuid_text_from(self@, 0),
            decreases 16 - i,
        {
            let ghost before = text@;
            if i == 4 || i == 6 || i == 8 || i == 10 {
                text.push('-');
            }
            let byte = self.bytes[i];
            text.push(hex_char(byte / 16));
            text.push(hex_char(byte % 16));
            assert(text@ + uuid_text_from(self@, (i + 1) as nat) =~= before + uuid_text_from(self@, i as nat));
            i = i + 1;
        }
        assert(text@ =~= uuid_text_from(self@, 0));
        text
    }
}

/// The number that a message begins with tells its kind, and what it holds follows in its
/// order.
pub proof fn law_message_form(
    id: Seq<u8>,
    username: Seq<char>,
    signature: Seq<u8>,
    offer: Offer,
    reason: Option<Seq<char>>,
)
    ensures
        message_bytes(Message::Hello { id, username, signature }) == seq![0u8] + blob_bytes(id) + text_bytes(username)
            + blob_bytes(signature),
        message_bytes(Message::TransferOfferMsg { offer }) == seq![1u8] + text_bytes(offer.transfer_name) + blob_bytes(
            offer.transfer_id,
        ) + varint(offer.entries_num as nat) + varint(offer.total_size as nat) + blob_bytes(offer.tree),
        message_bytes(Message::Accepted) == seq![2u8],
        reason is None ==> message_bytes(Message::Rejected { reason }) == seq![3u8, 0u8],
        reason is Some ==> message_bytes(Message::Rejected { reason }) == seq![3u8, 1u8] + text_bytes(reason->0),
        message_bytes(Message::TransferStream { transfer_id: id }) == seq![4u8] + blob_bytes(id),
        message_bytes(Message::ContainerStream { id }) == seq![5u8] + blob_bytes(id),
{
    reveal(varint);
    assert(message_bytes(Message::Accepted) =~= seq![2u8]);
    assert(message_bytes(Message::TransferOfferMsg { offer }) =~= seq![1u8] + text_bytes(offer.transfer_name)
        + blob_bytes(offer.transfer_id) + varint(offer.entries_num as nat) + varint(offer.total_size as nat)
        + blob_bytes(offer.tree));
    match reason {
        None => {
            assert(message_bytes(Message::Rejected { reason }) =~= seq![3u8, 0u8]);
        },
        Some(text) => {
            assert(message_bytes(Message::Rejected { reason }) =~= seq![3u8, 1u8] + text_bytes(text));
        },
    }
}

/// Of what is read, keys are public keys of 32 bytes, signatures have 64 bytes and
/// identities have 16. A number that is of no kind is not read.
pub proof fn law_read_is_sound(bytes: Seq<u8>)
    ensures
        match read_message(bytes) {
            Some(Message::Hello { id, username, signature }) => id.len() == 32 && is_public_key(id) && signature.len()
                == 64,
            Some(Message::TransferOfferMsg { offer }) => offer.transfer_id.len() == 16,
            Some(Message::TransferStream { transfer_id }) => transfer_id.len() == 16,
            Some(Message::ContainerStream { id }) => id.len() == 16,
            _ => true,
        },
        read_u32(bytes) is None ==> read_message(bytes) is None,
        read_u32(bytes) matches Some((kind, used)) ==> kind > 5 ==> read_message(bytes) is None,
{
}

/// A payload is preceded by its length in four bytes, the most significant first.
pub proof fn law_frame_form(payload: Seq<u8>)
    requires
        payload.len() < 0x1_0000_0000,
    ensures
        ({
            let bytes = frame_bytes(payload);
            &&& bytes.len() == 4 + payload.len()
            &&& bytes.skip(4) == payload
            &&& payload.len() == ((bytes[0] * 256 + bytes[1]) * 256 + bytes[2]) * 256 + bytes[3]
        }),
{
    let bytes = frame_bytes(payload);
    let n = payload.len();
    assert(bytes.skip(4) =~= payload);
    let a = n / 0x100;
    let b = n / 0x1_0000;
    let c = n / 0x100_0000;
    assert(n == 256 * a + n % 256);
    assert(a == 256 * b + a % 256);
    assert(b == 256 * c + b % 256);
    assert(c < 256);
}

/// The length in a header is that of four bytes, the most significant first. A frame of
/// which not all has come is not read.
pub proof fn law_frame_is_read_whole(bytes: Seq<u8>)
    ensures
        bytes.len() >= 4 ==> length_of(bytes) == ((bytes[0] * 256 + bytes[1]) * 256 + bytes[2]) * 256 + bytes[3],
        bytes.len() < 4 ==> read_frame(bytes) is None,
        bytes.len() >= 4 && bytes.len() < 4 + length_of(bytes) ==> read_frame(bytes) is None,
        bytes.len() >= 4 + length_of(bytes) && bytes.len() >= 4 ==> {
            &&& read_frame(bytes) matches Some((payload, rest)) && bytes == bytes.take(4) + payload + rest
                && payload.len() == length_of(bytes)
        },
{
    if bytes.len() >= 4 && bytes.len() >= 4 + length_of(bytes) {
        let (payload, rest) = read_frame(bytes)->0;
        assert(bytes =~= bytes.take(4) + payload + rest);
    }
}

/// The answer of the user goes out as it was given: what is accepted is accepted, and what
/// is rejected is rejected, for the reason that was given.
pub proof fn law_answer_goes_out(reason: Option<String>)
    ensures
        answer_of(UiResponse::Accept) == Message::Accepted,
        reason is None ==> answer_of(UiResponse::Reject { reason }) == (Message::Rejected { reason: None }),
        reason is Some ==> answer_of(UiResponse::Reject { reason }) == (Message::Rejected { reason: Some(reason->0@) }),
{
}

/// What a message says is what it holds.
pub proof fn law_message_says(
    id: DeviceId,
    username: Username,
    signature: Signature,
    offer: TransferOffer<CompressedPathTree>,
    reason: Option<String>,
    number: Uuid,
)
    ensures
        (NetMessage::Hello { id, username, signature })@ == (Message::Hello {
            id: id@,
            username: username@,
            signature: signature@,
        }),
        (NetMessage::TransferOfferMsg { offer })@ == (Message::TransferOfferMsg {
            offer: Offer {
                transfer_name: offer.transfer_name@,
                transfer_id: offer.transfer_id@,
                entries_num: offer.entries_num,
                total_size: offer.total_size,
                tree: offer.tree@,
            },
        }),
        NetMessage::Accepted@ == Message::Accepted,
        reason is None ==> (NetMessage::Rejected { reason })@ == (Message::Rejected { reason: None }),
        reason is Some ==> (NetMessage::Rejected { reason })@ == (Message::Rejected { reason: Some(reason->0@) }),
        (NetMessage::TransferStream { transfer_id: number })@ == (Message::TransferStream { transfer_id: number@ }),
        (NetMessage::ContainerStream { id: number })@ == (Message::ContainerStream { id: number@ }),
{
}

/// The name that a log gives an event, and what it shows of it.
pub proof fn law_events_in_a_log(event: AppEvent, held: Seq<char>)
    ensures
        event is FoundNearby ==> event_label(event) == "FoundNearby"@,
        event is Connected ==> event_label(event) == "Connected"@,
        event is ConnectionOffer ==> event_label(event) == "NewConnectionRequest"@,
        event is IncomingTransferOffer ==> event_label(event) == "IncomingTransferOffer"@,
        event is TransferOfferDelivered ==> event_label(event) == "TransferOfferDelivered"@,
        event is DeviceWentOffline ==> event_label(event) == "DeviceWentOffline"@,
        event is TransferUpdated ==> event_label(event) == "TransferUpdated"@,
        event matches AppEvent::Connected { device_id } ==> {
            &&& event_device(event) == Some(base64_text(device_id@))
            &&& event_text(event, held) == "Connected"@ + " { device_id: "@ + quoted_text(base64_text(device_id@)) + " }"@
        },
        event matches AppEvent::ConnectionOffer { offer } ==> {
            &&& event_device(event) == Some(base64_text(offer.remote_device_id@))
            &&& offer.nearby ==> event_text(event, held) == "NewConnectionRequest"@ + " { username: "@ + quoted_text(
                offer.username@,
            ) + ", remote_device_id: "@ + quoted_text(base64_text(offer.remote_device_id@)) + ", nearby: "@ + "true"@
                + ", respond: "@ + quoted_text("Sender { .. }"@) + " }"@
            &&& !offer.nearby ==> event_text(event, held) == "NewConnectionRequest"@ + " { username: "@ + quoted_text(
                offer.username@,
            ) + ", remote_device_id: "@ + quoted_text(base64_text(offer.remote_device_id@)) + ", nearby: "@ + "false"@
                + ", respond: "@ + quoted_text("Sender { .. }"@) + " }"@
        },
        event is IncomingTransferOffer ==> event_text(event, held) == "IncomingTransferOffer"@ + " { offer: "@ + held
            + " }"@,
        event is DeviceWentOffline ==> event_text(event, held) == "DeviceWentOffline"@ + " { device_id: "@ + held
            + " }"@,
        event is FoundNearby || event is TransferOfferDelivered ==> event_text(event, held) == event_label(event),
        !(event is Connected) && !(event is ConnectionOffer) ==> event_device(event) is None,
{
}

/// The text of an identity is its bytes in hexadecimal digits, small letters among them,
/// two to a byte and in order, with a hyphen before the fifth, seventh, ninth and eleventh.
pub proof fn law_identity_text(bytes: Seq<u8>, k: nat)
    requires
        k < bytes.len(),
    ensures
        ({
            let hyphen = if k == 4 || k == 6 || k == 8 || k == 10 { seq!['-'] } else { Seq::<char>::empty() };
            let high = bytes[k as int] / 16;
            let low = bytes[k as int] % 16;
            let digits = "0123456789abcdef"@;
            uuid_text_from(bytes, k) == hyphen + seq![digits[high as int], digits[low as int]] + uuid_text_from(
                bytes,
                k + 1,
            )
        }),
        uuid_text_from(bytes, bytes.len()) == Seq::<char>::empty(),
{
    reveal_strlit("0123456789abcdef");
    let hyphen = if k == 4 || k == 6 || k == 8 || k == 10 { seq!['-'] } else { Seq::<char>::empty() };
    let high = bytes[k as int] / 16;
    let low = bytes[k as int] % 16;
    let digits = "0123456789abcdef"@;
    assert(hex_digit(high as nat) == digits[high as int]);
    assert(hex_digit(low as nat) == digits[low as int]);
    assert(uuid_text_from(bytes, k) =~= hyphen + seq![digits[high as int], digits[low as int]] + uuid_text_from(
        bytes,
        k + 1,
    ));
}

/// What goes over a stream are the bytes of the message and nothing else. A message can be
/// sent where the key in it is a public key.
pub proof fn law_what_is_streamed(message: NetMessage, payload: Seq<u8>)
    ensures
        message.payload() == message_bytes(message@),
        NetMessage::parsed(payload) == read_message(payload),
        message.sendable() <==> (message matches NetMessage::Hello { id, username, signature } ==> is_public_key(id@)),
{
}

} // verus!
