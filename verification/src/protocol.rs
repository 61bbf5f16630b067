//! How devices meet and what they offer each other.

use crate::common::{Signature, SigningKey};
use crate::crypto::{public_key, signature_good, signature_of, verify_message};
use crate::devices::{same_slices, Device, DeviceId, DeviceInfo, DeviceStatus, DevicesPool, UserInfo, Username};
use crate::messages::{ConnectionOffer, Message, NetMessage, UiResponse, Uuid};
use crate::path_tree::{decompressed, CompressedPathTree, PathTree, TreeError};
use crate::storage_utils::{Json, KvStore, Value};
use crate::tree_model::Node;
use crate::wire::{
    blob_bytes, encode_array, encode_blob, encode_u64, law_blob_read_back, push_all, read_blob, read_u64, take_u64, varint,
};
use vstd::prelude::*;
use vstd::string::StringExecFns;

verus! {

/// The version of the protocol.
pub const PROTOCOL_VERSION: u64 = 0;

/// How long a device counts as reachable, in seconds.
pub const ONLINE_TIMEOUT: u64 = 5;

/// The service that knows where devices are.
pub const DISCOVERY_URL: &'static str = "https://discovery.nectan.co";

/// The name under which the protocol is negotiated.
pub const ALPN: &'static str = "nectan/0";

/// An offer of files.
#[derive(Debug)]
pub struct TransferOffer<T> {
    pub transfer_name: String,
    pub transfer_id: Uuid,
    pub entries_num: u32,
    pub total_size: u64,
    pub tree: T,
}

/// Whether two offers agree in all but the tree.
pub open spec fn same_terms<S, T>(a: TransferOffer<S>, b: TransferOffer<T>) -> bool {
    &&& a.transfer_name@ == b.transfer_name@
    &&& a.transfer_id == b.transfer_id
    &&& a.entries_num == b.entries_num
    &&& a.total_size == b.total_size
}

impl TransferOffer<CompressedPathTree> {
    /// The offer with its tree decompressed.
    pub fn decompress(self) -> (result: Result<TransferOffer<PathTree>, TreeError>)
        ensures
            match result {
                Ok(offer) => same_terms(self, offer) && decompressed(self.tree@) == Ok::<Node, TreeError>(
                    offer.tree@,
                ) && offer.tree.wf(),
                Err(e) => decompressed(self.tree@) == Err::<Node, TreeError>(e),
            },
    {
        match self.tree.decompress() {
            Ok(tree) => Ok(
                TransferOffer {
                    transfer_name: self.transfer_name,
                    transfer_id: self.transfer_id,
                    entries_num: self.entries_num,
                    total_size: self.total_size,
                    tree,
                },
            ),
            Err(e) => Err(e),
        }
    }
}

impl TransferOffer<PathTree> {
    /// The offer with its tree compressed.
    pub fn compress(self) -> (offer: TransferOffer<CompressedPathTree>)
        requires
            self.tree.wf(),
        ensures
            same_terms(self, offer),
            crate::wire::zstd_decoded(offer.tree@) == Some(crate::tree_codec::node_bytes(self.tree@)),
            crate::path_tree::comes_back(self.tree@, offer.tree@),
    {
        let tree = self.tree.compress();
        TransferOffer {
            transfer_name: self.transfer_name,
            transfer_id: self.transfer_id,
            entries_num: self.entries_num,
            total_size: self.total_size,
            tree,
        }
    }
}

impl Clone for TransferOffer<PathTree> {
    fn clone(&self) -> (copy: TransferOffer<PathTree>)
        ensures
            same_terms(*self, copy),
            copy.tree@ == self.tree@,
    {
        TransferOffer {
            transfer_name: self.transfer_name.clone(),
            transfer_id: self.transfer_id,
            entries_num: self.entries_num,
            total_size: self.total_size,
            tree: self.tree.clone(),
        }
    }
}

/// An offer that the user has to answer, and the name of who made it.
#[derive(Debug)]
pub struct TransferOfferRequest {
    pub sender_name: String,
    pub inner: TransferOffer<PathTree>,
}

/// Whether two requests say the same.
pub open spec fn same_request(a: TransferOfferRequest, b: TransferOfferRequest) -> bool {
    a.sender_name@ == b.sender_name@ && same_terms(a.inner, b.inner) && a.inner.tree@ == b.inner.tree@
}

impl Clone for TransferOfferRequest {
    fn clone(&self) -> (copy: TransferOfferRequest)
        ensures
            same_request(*self, copy),
    {
        TransferOfferRequest { sender_name: self.sender_name.clone(), inner: self.inner.clone() }
    }
}

/// The address of a device on the network: the public key of its endpoint.
#[derive(Clone, Copy, Debug)]
pub struct EndpointId {
    bytes: [u8; 32],
}

impl View for EndpointId {
    type V = Seq<u8>;

    closed spec fn view(&self) -> Seq<u8> {
        self.bytes@
    }
}

impl EndpointId {
    /// The address made of given bytes.
    pub fn from_bytes(bytes: &[u8; 32]) -> (id: EndpointId)
        ensures
            id@ == bytes@,
    {
        EndpointId { bytes: *bytes }
    }

    /// The bytes of the address.
    pub fn as_bytes(&self) -> (bytes: &[u8; 32])
        ensures
            bytes@ == self@,
    {
        &self.bytes
    }

    /// Whether two addresses are one.
    pub fn same_as(&self, other: &EndpointId) -> (same: bool)
        ensures
            same == (self@ == other@),
    {
        same_slices(self.bytes.as_slice(), other.bytes.as_slice())
    }
}

/// A new device: its name among devices, and the key that it signs with.
pub fn gen_device_id() -> (pair: (DeviceId, SigningKey))
    ensures
        pair.0@ == public_key(pair.1@),
        pair.0.wf(),
{
    let key = SigningKey::generate();
    (key.verifying_key(), key)
}

/// A number that goes up with each use, once it is known where it stands. There is one
/// of it: it is not copied, so that no number is given out twice.
#[derive(Debug)]
pub struct SeqNumber {
    inner: Option<u64>,
}

/// The number behind another one; behind the largest comes zero.
pub open spec fn next_number(n: u64) -> u64 {
    if n == u64::MAX {
        0
    } else {
        (n + 1) as u64
    }
}

/// The number after so many uses.
pub open spec fn number_after(n: u64, uses: nat) -> u64
    decreases uses,
{
    if uses == 0 {
        n
    } else {
        next_number(number_after(n, (uses - 1) as nat))
    }
}

/// Each use gives the number behind the one before, and no number comes twice before
/// all have come.
pub proof fn law_numbers_in_a_row(n: u64, a: nat, b: nat)
    ensures
        number_after(n, a) == (n + a) % 0x1_0000_0000_0000_0000,
        a < b < a + 0x1_0000_0000_0000_0000 ==> number_after(n, a) != number_after(n, b),
{
    lemma_number_after(n, a);
    lemma_number_after(n, b);
    if a < b < a + 0x1_0000_0000_0000_0000 && number_after(n, a) == number_after(n, b) {
        let m = 0x1_0000_0000_0000_0000int;
        let (x, y) = ((n + a) / m, (n + b) / m);
        assert(n + a == m * x + (n + a) % m);
        assert(n + b == m * y + (n + b) % m);
        assert(b - a == m * (y - x));
    }
}

proof fn lemma_number_after(n: u64, uses: nat)
    ensures
        number_after(n, uses) == (n + uses) % 0x1_0000_0000_0000_0000,
    decreases uses,
{
    if uses > 0 {
        lemma_number_after(n, (uses - 1) as nat);
    }
}

impl View for SeqNumber {
    type V = Option<u64>;

    closed spec fn view(&self) -> Option<u64> {
        self.inner
    }
}

impl SeqNumber {
    /// A number of which it is not known where it stands.
    pub fn new() -> (seq: SeqNumber)
        ensures
            seq@ == None::<u64>,
    {
        SeqNumber { inner: None }
    }

    /// Sets the number, unless it is set.
    pub fn set(&mut self, val: u64)
        ensures
            final(self)@ == (match old(self)@ {
                Some(n) => Some(n),
                None => Some(val),
            }),
    {
        if self.inner.is_none() {
            self.inner = Some(val);
        }
    }

    /// The number, which then goes up by one; behind the largest comes zero.
    pub fn get_and_inc(&mut self) -> (val: Option<u64>)
        ensures
            val == old(self)@,
            final(self)@ == (match old(self)@ {
                Some(n) => Some(next_number(n)),
                None => None,
            }),
    {
        let val = self.inner;
        match val {
            Some(n) => {
                self.inner = Some(n.wrapping_add(1));
            },
            None => {},
        }
        val
    }
}

impl Default for SeqNumber {
    fn default() -> (seq: SeqNumber)
        ensures
            seq@ == None::<u64>,
    {
        SeqNumber::new()
    }
}

/// What a device knows of itself and of others.
#[derive(Debug)]
pub struct NectanState {
    pub userinfo: UserInfo,
    pub device_id: DeviceId,
    pub signing_key: SigningKey,
    pub devices: DevicesPool,
    /// Only one connection offer waits at a time.
    pub conn_offer: Option<ConnectionOffer>,
    /// Only one transfer offer waits at a time.
    pub transfer_offer: Option<TransferOfferRequest>,
    pub seq_num: SeqNumber,
    pub store: KvStore,
}

/// What another device that says hello wants to be known as.
#[derive(Debug)]
pub struct Visitor {
    pub id: DeviceId,
    pub username: Username,
    pub endpoint: EndpointId,
}

/// What a device does about one that wants to connect to it.
#[derive(Debug)]
pub enum AcceptStep {
    /// Turn it away, with an answer where there is one.
    Refuse { reply: Option<NetMessage> },
    /// Show the offer to the user and wait for their answer.
    AskUser { offer: ConnectionOffer, visitor: Visitor },
    /// Let it in, with an answer.
    Welcome { reply: NetMessage, device: Device },
}

/// The message by which a device introduces itself to the endpoint `target`.
pub open spec fn hello_message(id: Seq<u8>, username: Seq<char>, secret: Seq<u8>, target: Seq<u8>) -> Message {
    Message::Hello { id, username, signature: signature_of(secret, target) }
}

/// A device that is connected under a name, with the record that there is of it.
pub open spec fn connected_device(id: Seq<u8>, username: Seq<char>, connection: u64, stored: Option<DeviceInfo>) -> DeviceInfo {
    DeviceInfo {
        username,
        id,
        connection: Some(connection),
        status: DeviceStatus::Online,
        deleted: false,
        total_exchanged_data: match stored {
            Some(d) => d.total_exchanged_data,
            None => 0,
        },
        completed_transfers: match stored {
            Some(d) => d.completed_transfers,
            None => 0,
        },
        fav: match stored {
            Some(d) => d.fav,
            None => false,
        },
    }
}

/// A device that is let in is on record as online, over the connection that it came by and
/// under the name that it gave, whatever the record said. What was counted of it before, and
/// whether it is a favourite, stays; of a new one nothing has been counted.
pub proof fn law_connected_is_online(id: Seq<u8>, username: Seq<char>, connection: u64, stored: Option<DeviceInfo>)
    ensures
        ({
            let device = connected_device(id, username, connection, stored);
            &&& device.status == DeviceStatus::Online
            &&& device.connection == Some(connection)
            &&& device.username == username
            &&& device.id == id
            &&& !device.deleted
            &&& stored matches Some(d) ==> device.total_exchanged_data == d.total_exchanged_data
                && device.completed_transfers == d.completed_transfers && device.fav == d.fav
            &&& stored is None ==> device.total_exchanged_data == 0 && device.completed_transfers == 0 && !device.fav
        }),
{
}

/// Whether a pool has a device as online, over a connection and under a name.
pub open spec fn online_as(
    pool: Map<Seq<u8>, DeviceInfo>,
    id: Seq<u8>,
    username: Seq<char>,
    connection: u64,
) -> bool {
    &&& pool.contains_key(id)
    &&& pool[id].status == DeviceStatus::Online
    &&& pool[id].connection == Some(connection)
    &&& pool[id].username == username
    &&& pool[id].id == id
    &&& !pool[id].deleted
}

/// What a pool holds under a key.
pub open spec fn known(pool: Map<Seq<u8>, DeviceInfo>, id: Seq<u8>) -> Option<DeviceInfo> {
    if pool.contains_key(id) {
        Some(pool[id])
    } else {
        None
    }
}

/// Whether a message introduces a device, signed for the endpoint `target`.
pub open spec fn introduces(message: Option<Message>, target: Seq<u8>) -> bool {
    message matches Some(Message::Hello { id, username, signature }) && signature_good(id, target, signature)
}

/// What is told to a device that comes while another one is waiting.
pub open spec fn busy_message() -> Message {
    Message::Rejected { reason: Some("I'm busy."@) }
}

fn device_from(id: DeviceId, username: Username, connection: u64, stored: Option<Device>) -> (device: Device)
    ensures
        device@ == connected_device(
            id@,
            username@,
            connection,
            match stored {
                Some(d) => Some(d@),
                None => None,
            },
        ),
        device.id == id,
        device.username@ == username@,
        device.connection == Some(connection),
        device.status == DeviceStatus::Online,
        !device.deleted,
{
    let (completed_transfers, total_exchanged_data, fav) = match stored {
        Some(d) => (d.completed_transfers, d.total_exchanged_data, d.fav),
        None => (0, 0, false),
    };
    Device {
        username,
        id,
        connection: Some(connection),
        status: DeviceStatus::Online,
        deleted: false,
        total_exchanged_data,
        completed_transfers,
        fav,
    }
}

/// The message that a reading gave, where it gave one.
pub open spec fn message_view(message: Option<NetMessage>) -> Option<Message> {
    match message {
        Some(m) => Some(m@),
        None => None,
    }
}

impl NectanState {
    /// Whether the records are sound.
    pub open spec fn wf(&self) -> bool {
        self.devices.wf() && self.store.wf()
    }

    /// The name that this device is known by.
    pub open spec fn id(&self) -> Seq<u8> {
        self.device_id@
    }

    /// The name of its user.
    pub open spec fn user(&self) -> Seq<char> {
        self.userinfo@
    }

    /// The key that it signs with.
    pub open spec fn secret(&self) -> Seq<u8> {
        self.signing_key@
    }

    /// The device that waits for the user's answer.
    pub open spec fn waiting(&self) -> Option<ConnectionOffer> {
        self.conn_offer
    }

    /// The offer of files that waits for the user's answer.
    pub open spec fn offered(&self) -> Option<TransferOfferRequest> {
        self.transfer_offer
    }

    /// Whether two states differ in nothing but what the caller names besides.
    pub open spec fn same_self(&self, other: &NectanState) -> bool {
        &&& self.id() == other.id()
        &&& self.user() == other.user()
        &&& self.secret() == other.secret()
        &&& self.store == other.store
        &&& self.seq_num == other.seq_num
    }

    /// A device with nothing waiting.
    pub fn build(
        userinfo: UserInfo,
        device_id: DeviceId,
        signing_key: SigningKey,
        devices: DevicesPool,
        store: KvStore,
    ) -> (state: NectanState)
        requires
            devices.wf(),
            store.wf(),
        ensures
            state.wf(),
            state.id() == device_id@,
            state.user() == userinfo@,
            state.secret() == signing_key@,
            state.waiting() is None,
            state.offered() is None,
            state.devices == devices,
            state.store == store,
            state.seq_num@ == None::<u64>,
    {
        NectanState {
            userinfo,
            device_id,
            signing_key,
            devices,
            conn_offer: None,
            transfer_offer: None,
            seq_num: SeqNumber::new(),
            store,
        }
    }

    /// The name that this device is known by.
    pub fn device_id(&self) -> (id: DeviceId)
        ensures
            id@ == self.id(),
    {
        self.device_id
    }

    /// The signature of a message.
    pub fn sign(&self, msg: &[u8]) -> (signature: Signature)
        ensures
            signature@ == signature_of(self.secret(), msg@),
            signature_good(public_key(self.secret()), msg@, signature@),
    {
        self.signing_key.sign(msg)
    }

    /// The message by which this device introduces itself to an endpoint. Where its
    /// name is the public key of its secret one, that endpoint finds it good.
    pub fn hello(&self, target: &EndpointId) -> (message: NetMessage)
        ensures
            message@ == hello_message(self.id(), self.user(), self.secret(), target@),
            self.id() == public_key(self.secret()) ==> introduces(Some(message@), target@),
    {
        NetMessage::Hello {
            id: self.device_id,
            username: self.userinfo.username(),
            signature: self.sign(target.as_bytes().as_slice()),
        }
    }

    /// Takes the first message of a device that wants to connect. One that does not
    /// introduce itself is turned away. One that is known or nearby is let in. Any
    /// other waits for the user, where no other is waiting.
    pub fn accept_hello(
        &mut self,
        my_endpoint: &EndpointId,
        remote_endpoint: &EndpointId,
        nearby: bool,
        connection: u64,
        message: Option<NetMessage>,
    ) -> (step: AcceptStep)
        requires
            old(self).wf(),
        ensures
            final(self).wf(),
            final(self).same_self(old(self)),
            final(self).devices.file() == old(self).devices.file(),
            final(self).offered() == old(self).offered(),
            match message_view(message) {
                Some(Message::Hello { id, username, signature }) => {
                    let stored = known(old(self).devices@, id);
                    if !signature_good(id, my_endpoint@, signature) {
                        &&& step matches AcceptStep::Refuse { reply } && reply is None
                        &&& final(self).devices@ == old(self).devices@
                        &&& final(self).waiting() == old(self).waiting()
                    } else if stored is None && !nearby && old(self).waiting() is Some {
                        &&& step matches AcceptStep::Refuse { reply } && message_view(reply) == Some(busy_message())
                        &&& final(self).devices@ == old(self).devices@
                        &&& final(self).waiting() == old(self).waiting()
                    } else if stored is None && !nearby {
                        &&& step matches AcceptStep::AskUser { offer, visitor } && offer.username@ == username
                            && offer.remote_device_id@ == id && !offer.nearby && visitor.id@ == id && visitor.username@
                            == username && visitor.endpoint@ == remote_endpoint@
                        &&& final(self).devices@ == old(self).devices@
                        &&& final(self).waiting() matches Some(offer) && offer.username@ == username
                            && offer.remote_device_id@ == id && !offer.nearby
                    } else {
                        &&& step matches AcceptStep::Welcome { reply, device } && reply@ == hello_message(
                            old(self).id(),
                            old(self).user(),
                            old(self).secret(),
                            remote_endpoint@,
                        ) && device@ == connected_device(id, username, connection, stored)
                        &&& final(self).devices@ == old(self).devices@.insert(
                            id,
                            connected_device(id, username, connection, stored),
                        )
                        &&& final(self).waiting() == old(self).waiting()
                    }
                },
                _ => {
                    &&& step matches AcceptStep::Refuse { reply } && reply is None
                    &&& final(self).devices@ == old(self).devices@
                    &&& final(self).waiting() == old(self).waiting()
                },
            },
            step matches AcceptStep::Welcome { reply, device } ==> device.status == DeviceStatus::Online
                && device.connection == Some(connection) && online_as(
                final(self).devices@,
                device.id@,
                device.username@,
                connection,
            ) && (message_view(message) matches Some(Message::Hello { id, username, signature }) && device.id@ == id
                && device.username@ == username),
    {
        let (id, username, signature) = match message {
            Some(NetMessage::Hello { id, username, signature }) => (id, username, signature),
            _ => {
                return AcceptStep::Refuse { reply: None };
            },
        };
        if !verify_message(id.as_bytes(), my_endpoint.as_bytes().as_slice(), signature.as_bytes()) {
            return AcceptStep::Refuse { reply: None };
        }
        let stored = self.devices.get(&id);
        if stored.is_none() && !nearby {
            if self.conn_offer.is_some() {
                return AcceptStep::Refuse {
                    reply: Some(NetMessage::Rejected { reason: Some(String::from_str("I'm busy.")) }),
                };
            }
            let offer = ConnectionOffer { username: username.clone(), remote_device_id: id, nearby };
            self.conn_offer = Some(offer.clone());
            return AcceptStep::AskUser { offer, visitor: Visitor { id, username, endpoint: *remote_endpoint } };
        }
        let reply = self.hello(remote_endpoint);
        let device = device_from(id, username, connection, stored);
        self.devices.insert(device.clone());
        AcceptStep::Welcome { reply, device }
    }

    /// Takes the user's answer about a device that waited for it.
    pub fn accept_answer(&mut self, visitor: Visitor, connection: u64, answer: Option<UiResponse>) -> (step: AcceptStep)
        requires
            old(self).wf(),
        ensures
            final(self).wf(),
            final(self).same_self(old(self)),
            final(self).devices.file() == old(self).devices.file(),
            final(self).offered() == old(self).offered(),
            final(self).waiting() == old(self).waiting(),
            match answer {
                None => {
                    &&& step matches AcceptStep::Refuse { reply } && reply is None
                    &&& final(self).devices@ == old(self).devices@
                },
                Some(UiResponse::Reject { reason }) => {
                    &&& step matches AcceptStep::Refuse { reply } && message_view(reply) == Some(
                        Message::Rejected { reason: None },
                    )
                    &&& final(self).devices@ == old(self).devices@
                },
                Some(UiResponse::Accept) => {
                    let device_info = connected_device(visitor.id@, visitor.username@, connection, None);
                    &&& step matches AcceptStep::Welcome { reply, device } && reply@ == hello_message(
                        old(self).id(),
                        old(self).user(),
                        old(self).secret(),
                        visitor.endpoint@,
                    ) && device@ == device_info
                    &&& final(self).devices@ == old(self).devices@.insert(visitor.id@, device_info)
                },
            },
            step matches AcceptStep::Welcome { reply, device } ==> device.status == DeviceStatus::Online
                && device.connection == Some(connection) && device.id@ == visitor.id@ && online_as(
                final(self).devices@,
                visitor.id@,
                visitor.username@,
                connection,
            ),
    {
        match answer {
            None => AcceptStep::Refuse { reply: None },
            Some(UiResponse::Reject { reason: _ }) => AcceptStep::Refuse {
                reply: Some(NetMessage::Rejected { reason: None }),
            },
            Some(UiResponse::Accept) => {
                let reply = self.hello(&visitor.endpoint);
                let device = device_from(visitor.id, visitor.username, connection, None);
                self.devices.insert(device.clone());
                AcceptStep::Welcome { reply, device }
            },
        }
    }

    /// Hands the user's answer to the device that waits for it, where one does.
    pub fn respond_connection_offer(&mut self, r: UiResponse) -> (delivered: Option<UiResponse>)
        ensures
            delivered == (if old(self).waiting() is Some {
                Some(r)
            } else {
                None
            }),
            final(self).waiting() is None,
            final(self).same_self(old(self)),
            final(self).devices == old(self).devices,
            final(self).offered() == old(self).offered(),
    {
        let waiting = self.conn_offer.take();
        match waiting {
            Some(_) => Some(r),
            None => None,
        }
    }

    /// Hands the user's answer to the offer that waits for it, where one does.
    pub fn respond_transfer_offer(&mut self, r: UiResponse) -> (delivered: Option<UiResponse>)
        ensures
            delivered == (if old(self).offered() is Some {
                Some(r)
            } else {
                None
            }),
            final(self).offered() is None,
            final(self).same_self(old(self)),
            final(self).devices == old(self).devices,
            final(self).waiting() == old(self).waiting(),
    {
        let offered = self.transfer_offer.take();
        match offered {
            Some(_) => Some(r),
            None => None,
        }
    }
}


/// Why a connection to another device did not come about.
#[derive(Debug, Clone, Copy, PartialEq, Eq, Structural)]
pub enum ConnectError {
    /// There is one.
    AlreadyConnected,
    /// No answer could be read.
    NoResponse,
    /// The answer was not signed for this endpoint.
    BadSignature,
    /// The other device refused.
    Rejected,
    /// The answer is none to a hello.
    BadMessage,
}

/// What is said of a connection that did not come about.
pub open spec fn connect_complaint(error: ConnectError) -> Seq<char> {
    match error {
        ConnectError::AlreadyConnected => "Already connected"@,
        ConnectError::NoResponse => "Failed to read response."@,
        ConnectError::BadSignature => "Failed to verify signature."@,
        ConnectError::Rejected => "Remote device rejected connection."@,
        ConnectError::BadMessage => "Remote device sent bad message."@,
    }
}

impl ConnectError {
    /// What is said of the connection.
    pub fn message(&self) -> (text: &'static str)
        ensures
            text@ == connect_complaint(*self),
    {
        match self {
            ConnectError::AlreadyConnected => "Already connected",
            ConnectError::NoResponse => "Failed to read response.",
            ConnectError::BadSignature => "Failed to verify signature.",
            ConnectError::Rejected => "Remote device rejected connection.",
            ConnectError::BadMessage => "Remote device sent bad message.",
        }
    }
}

/// Why an answer to a hello opens no connection, where it does not.
pub open spec fn reply_error(reply: Option<Message>, my_endpoint: Seq<u8>) -> Option<ConnectError> {
    match reply {
        None => Some(ConnectError::NoResponse),
        Some(Message::Hello { id, username, signature }) => if signature_good(id, my_endpoint, signature) {
            None
        } else {
            Some(ConnectError::BadSignature)
        },
        Some(Message::Rejected { reason }) => Some(ConnectError::Rejected),
        Some(_) => Some(ConnectError::BadMessage),
    }
}

impl NectanState {
    /// The message that opens a connection, unless there is one.
    pub fn connect_start(&self, alive: bool, target: &EndpointId) -> (message: Result<NetMessage, ConnectError>)
        ensures
            match message {
                Ok(hello) => !alive && hello@ == hello_message(self.id(), self.user(), self.secret(), target@) && (
                self.id() == public_key(self.secret()) ==> introduces(Some(hello@), target@)),
                Err(e) => alive && e == ConnectError::AlreadyConnected,
            },
    {
        if alive {
            return Err(ConnectError::AlreadyConnected);
        }
        Ok(self.hello(target))
    }

    /// Takes the answer to the message that opened a connection. A device that
    /// introduces itself is put on record as connected.
    pub fn connect_reply(
        &mut self,
        my_endpoint: &EndpointId,
        connection: u64,
        reply: Option<NetMessage>,
    ) -> (result: Result<Device, ConnectError>)
        requires
            old(self).wf(),
        ensures
            final(self).wf(),
            final(self).same_self(old(self)),
            final(self).devices.file() == old(self).devices.file(),
            final(self).waiting() == old(self).waiting(),
            final(self).offered() == old(self).offered(),
            match result {
                Ok(device) => reply_error(message_view(reply), my_endpoint@) is None && (message_view(
                    reply,
                ) matches Some(Message::Hello { id, username, signature }) && device@ == connected_device(
                    id,
                    username,
                    connection,
                    known(old(self).devices@, id),
                )) && final(self).devices@ == old(self).devices@.insert(device.id@, device@),
                Err(e) => reply_error(message_view(reply), my_endpoint@) == Some(e) && final(self).devices@
                    == old(self).devices@,
            },
            result matches Ok(device) ==> device.status == DeviceStatus::Online && device.connection == Some(connection)
                && online_as(final(self).devices@, device.id@, device.username@, connection) && (message_view(
                reply,
            ) matches Some(Message::Hello { id, username, signature }) && device.id@ == id && device.username@
                == username),
    {
        match reply {
            None => Err(ConnectError::NoResponse),
            Some(NetMessage::Hello { id, username, signature }) => {
                if !verify_message(id.as_bytes(), my_endpoint.as_bytes().as_slice(), signature.as_bytes()) {
                    return Err(ConnectError::BadSignature);
                }
                let stored = self.devices.get(&id);
                let device = device_from(id, username, connection, stored);
                self.devices.insert(device.clone());
                Ok(device)
            },
            Some(NetMessage::Rejected { reason: _ }) => Err(ConnectError::Rejected),
            Some(_) => Err(ConnectError::BadMessage),
        }
    }
}

/// What the first message of a stream asks for.
#[derive(Debug)]
pub enum StreamRequest {
    /// Files are offered.
    Offer(TransferOffer<CompressedPathTree>),
    /// The stream belongs to a transfer.
    Transfer(Uuid),
    /// A stream must not begin like this.
    Forbidden,
}

/// What the first message of a stream asks for.
pub fn stream_request(msg: NetMessage) -> (request: StreamRequest)
    ensures
        match msg {
            NetMessage::TransferOfferMsg { offer } => request == StreamRequest::Offer(offer),
            NetMessage::TransferStream { transfer_id } => request == StreamRequest::Transfer(transfer_id),
            _ => request == StreamRequest::Forbidden,
        },
{
    match msg {
        NetMessage::TransferOfferMsg { offer } => StreamRequest::Offer(offer),
        NetMessage::TransferStream { transfer_id } => StreamRequest::Transfer(transfer_id),
        _ => StreamRequest::Forbidden,
    }
}

/// What a device does about files that are offered to it.
#[derive(Debug)]
pub enum OfferStep {
    /// Refuse them, as another offer is waiting.
    Busy { reply: NetMessage },
    /// Close the stream, as the offer cannot be read.
    Broken(TreeError),
    /// Show the offer to the user and wait for their answer.
    AskUser { request: TransferOfferRequest },
}

/// What is told to a device that offers files while another offer is waiting.
pub open spec fn occupied_message() -> Message {
    Message::Rejected { reason: Some("Receiver is busy with another offer."@) }
}

impl NectanState {
    /// Takes an offer of files. It waits for the user, where no other offer is
    /// waiting and its tree can be read.
    pub fn receive_offer(&mut self, sender_name: String, offer: TransferOffer<CompressedPathTree>) -> (step: OfferStep)
        ensures
            final(self).same_self(old(self)),
            final(self).devices == old(self).devices,
            final(self).waiting() == old(self).waiting(),
            if old(self).offered() is Some {
                &&& step matches OfferStep::Busy { reply } && reply@ == occupied_message()
                &&& final(self).offered() == old(self).offered()
            } else {
                match decompressed(offer.tree@) {
                    Err(e) => {
                        &&& step == OfferStep::Broken(e)
                        &&& final(self).offered() is None
                    },
                    Ok(node) => {
                        &&& step matches OfferStep::AskUser { request } && request.sender_name@ == sender_name@
                            && same_terms(offer, request.inner) && request.inner.tree@ == node && request.inner.tree.wf()
                        &&& final(self).offered() matches Some(slot) && slot.sender_name@ == sender_name@ && same_terms(
                            offer,
                            slot.inner,
                        ) && slot.inner.tree@ == node
                    },
                }
            },
    {
        if self.transfer_offer.is_some() {
            return OfferStep::Busy {
                reply: NetMessage::Rejected { reason: Some(String::from_str("Receiver is busy with another offer.")) },
            };
        }
        match offer.decompress() {
            Err(e) => OfferStep::Broken(e),
            Ok(inner) => {
                let request = TransferOfferRequest { sender_name, inner };
                self.transfer_offer = Some(request.clone());
                OfferStep::AskUser { request }
            },
        }
    }
}

/// What follows the user's answer to an offer: the message that carries it, and
/// whether the transfer begins. Without an answer there is nothing to say.
pub fn offer_answered(answer: Option<UiResponse>) -> (outcome: Option<(NetMessage, bool)>)
    ensures
        match answer {
            None => outcome is None,
            Some(r) => outcome matches Some((message, begins)) && message@ == crate::messages::answer_of(r) && begins == (r
                is Accept),
        },
{
    match answer {
        None => None,
        Some(r) => {
            let begins = match r {
                UiResponse::Accept => true,
                UiResponse::Reject { .. } => false,
            };
            Some((NetMessage::from(r), begins))
        },
    }
}

/// What happened among the devices nearby.
#[derive(Debug, Clone, Copy)]
pub enum DiscoveryEvent {
    Discovered { endpoint: EndpointId },
    Expired { endpoint: EndpointId },
    Other,
}

/// What is to be done about it.
#[derive(Debug, Clone, Copy)]
pub enum DiscoveryStep {
    /// Note that an endpoint is nearby.
    Add { endpoint: EndpointId },
    /// Note that an endpoint is no longer nearby.
    Remove { endpoint: EndpointId },
    /// Nothing.
    Ignore,
}

/// What is to be done about what happened nearby. A device does not notice itself.
pub fn discovery_step(own: &EndpointId, event: DiscoveryEvent) -> (step: DiscoveryStep)
    ensures
        match event {
            DiscoveryEvent::Discovered { endpoint } => step == (if endpoint@ == own@ {
                DiscoveryStep::Ignore
            } else {
                DiscoveryStep::Add { endpoint }
            }),
            DiscoveryEvent::Expired { endpoint } => step == (DiscoveryStep::Remove { endpoint }),
            DiscoveryEvent::Other => step == DiscoveryStep::Ignore,
        },
{
    match event {
        DiscoveryEvent::Discovered { endpoint } => if endpoint.same_as(own) {
            DiscoveryStep::Ignore
        } else {
            DiscoveryStep::Add { endpoint }
        },
        DiscoveryEvent::Expired { endpoint } => DiscoveryStep::Remove { endpoint },
        DiscoveryEvent::Other => DiscoveryStep::Ignore,
    }
}

/// What a device tells the discovery service about its endpoint.
#[derive(Debug, Clone, Copy)]
pub struct EndpointAnnouncePayload {
    pub device_id: DeviceId,
    pub endpoint_id: EndpointId,
    pub signature: Signature,
}

/// The bytes of what a device tells about its endpoint.
pub open spec fn announcement_bytes(device: Seq<u8>, endpoint: Seq<u8>, signature: Seq<u8>) -> Seq<u8> {
    blob_bytes(device) + endpoint + blob_bytes(signature)
}

impl EndpointAnnouncePayload {
    /// The bytes that are sent.
    pub fn to_bytes(&self) -> (bytes: Vec<u8>)
        ensures
            bytes@ == announcement_bytes(self.device_id@, self.endpoint_id@, self.signature@),
    {
        let mut bytes = encode_blob(self.device_id.as_bytes().as_slice());
        push_all(&mut bytes, encode_array(self.endpoint_id.as_bytes()));
        push_all(&mut bytes, encode_blob(self.signature.as_bytes().as_slice()));
        bytes
    }
}

/// What the discovery service answers to it.
#[derive(Debug, Clone, Copy, PartialEq, Eq)]
pub struct EndpointAnncounceResponse {
    pub seq_num: u64,
}

impl EndpointAnncounceResponse {
    /// The answer that bytes hold, where they hold one. Bytes behind it are of no
    /// concern.
    pub fn from_bytes(bytes: &[u8]) -> (response: Option<EndpointAnncounceResponse>)
        ensures
            match read_u64(bytes@) {
                Some((n, used)) => response matches Some(r) && r.seq_num == n,
                None => response is None,
            },
    {
        match take_u64(bytes) {
            Some((seq_num, _)) => Some(EndpointAnncounceResponse { seq_num }),
            None => None,
        }
    }
}

/// What came of a request to the discovery service: nothing, or a status and the
/// body, where it could be read.
#[derive(Debug)]
pub enum HttpReply {
    Failed,
    Answered { status: u16, body: Option<Vec<u8>> },
}

/// What follows an attempt to announce an endpoint.
#[derive(Debug, Clone, Copy, PartialEq, Eq, Structural)]
pub enum AnnounceStep {
    /// It is announced, and the sequence number stands here.
    Done(u64),
    /// Try again after so many milliseconds.
    RetryAfter(u64),
    /// Try no more.
    GiveUp,
}

/// How long to wait before an endpoint is announced again, in milliseconds.
pub const ANNOUNCE_DELAY_MS: u64 = 4000;

/// What follows an attempt to announce an endpoint.
pub open spec fn announce_after(reply: HttpReply) -> AnnounceStep {
    match reply {
        HttpReply::Failed => AnnounceStep::RetryAfter(ANNOUNCE_DELAY_MS),
        HttpReply::Answered { status, body } => if status == 200 {
            match body {
                None => AnnounceStep::RetryAfter(ANNOUNCE_DELAY_MS),
                Some(bytes) => match read_u64(bytes@) {
                    Some((n, used)) => AnnounceStep::Done(n as u64),
                    None => AnnounceStep::RetryAfter(0),
                },
            }
        } else if status == 401 {
            AnnounceStep::GiveUp
        } else {
            AnnounceStep::RetryAfter(ANNOUNCE_DELAY_MS)
        },
    }
}

/// What follows an attempt to announce an endpoint.
pub fn announce_step(reply: HttpReply) -> (step: AnnounceStep)
    ensures
        step == announce_after(reply),
{
    match reply {
        HttpReply::Failed => AnnounceStep::RetryAfter(ANNOUNCE_DELAY_MS),
        HttpReply::Answered { status, body } => if status == 200 {
            match body {
                None => AnnounceStep::RetryAfter(ANNOUNCE_DELAY_MS),
                Some(bytes) => match EndpointAnncounceResponse::from_bytes(bytes.as_slice()) {
                    Some(res) => AnnounceStep::Done(res.seq_num),
                    None => AnnounceStep::RetryAfter(0),
                },
            }
        } else if status == 401 {
            AnnounceStep::GiveUp
        } else {
            AnnounceStep::RetryAfter(ANNOUNCE_DELAY_MS)
        },
    }
}

/// What a device tells the discovery service to be registered.
#[derive(Debug, Clone, Copy)]
pub struct DeviceCreateRequest {
    pub device_id: DeviceId,
}

impl DeviceCreateRequest {
    /// The bytes that are sent.
    pub fn to_bytes(&self) -> (bytes: Vec<u8>)
        ensures
            bytes@ == blob_bytes(self.device_id@),
    {
        encode_blob(self.device_id.as_bytes().as_slice())
    }
}

/// What follows an attempt to register.
#[derive(Debug, Clone, Copy, PartialEq, Eq, Structural)]
pub enum RegisterStep {
    /// Write down that the device is registered; it is then, once that is written.
    Save,
    /// The device is registered.
    Done,
    /// Try again after so many milliseconds.
    RetryAfter(u64),
}

/// How long to wait before a device is registered again, in milliseconds.
pub const REGISTER_DELAY_MS: u64 = 5000;

/// What a device asks the discovery service about others.
#[derive(Debug)]
pub struct ResolveDevicesRequest {
    pub devices: Vec<DeviceId>,
    pub endpoint_id: EndpointId,
    pub device_id: DeviceId,
    pub signature: Signature,
}

/// The bytes of some devices, one behind the other.
pub open spec fn ids_bytes(ids: Seq<Seq<u8>>) -> Seq<u8>
    decreases ids.len(),
{
    if ids.len() == 0 {
        Seq::empty()
    } else {
        ids_bytes(ids.drop_last()) + blob_bytes(ids.last())
    }
}

/// The bytes of what a device asks about others: how many there are, each of them, then
/// who is asking.
pub open spec fn resolve_bytes(ids: Seq<Seq<u8>>, endpoint: Seq<u8>, device: Seq<u8>, signature: Seq<u8>) -> Seq<u8> {
    varint(ids.len()) + ids_bytes(ids) + endpoint + blob_bytes(device) + blob_bytes(signature)
}

impl ResolveDevicesRequest {
    /// The bytes that are sent.
    pub fn to_bytes(&self) -> (bytes: Vec<u8>)
        ensures
            bytes@ == resolve_bytes(
                self.devices@.map_values(|id: DeviceId| id@),
                self.endpoint_id@,
                self.device_id@,
                self.signature@,
            ),
    {
        let ghost ids = self.devices@.map_values(|id: DeviceId| id@);
        let mut bytes = encode_u64(self.devices.len() as u64);
        let ghost lead = bytes@;
        let mut i: usize = 0;
        assert(ids.take(0) =~= Seq::empty());
        assert(bytes@ =~= lead + ids_bytes(ids.take(0)));
        while i < self.devices.len()
            invariant
                i <= self.devices@.len(),
                ids == self.devices@.map_values(|id: DeviceId| id@),
                bytes@ == lead + ids_bytes(ids.take(i as int)),
            decreases self.devices@.len() - i,
        {
            let ghost before = bytes@;
            push_all(&mut bytes, encode_blob(self.devices[i].as_bytes().as_slice()));
            assert(ids.take(i + 1).drop_last() =~= ids.take(i as int));
            assert(bytes@ =~= lead + ids_bytes(ids.take(i + 1)));
            i = i + 1;
        }
        assert(ids.take(i as int) =~= ids);
        push_all(&mut bytes, encode_array(self.endpoint_id.as_bytes()));
        push_all(&mut bytes, encode_blob(self.device_id.as_bytes().as_slice()));
        push_all(&mut bytes, encode_blob(self.signature.as_bytes().as_slice()));
        bytes
    }
}

impl NectanState {
    /// What this device tells the discovery service about its endpoint.
    pub fn announcement(&self, endpoint_id: EndpointId) -> (payload: EndpointAnnouncePayload)
        ensures
            payload.device_id@ == self.id(),
            payload.endpoint_id == endpoint_id,
            payload.signature@ == signature_of(self.secret(), endpoint_id@),
            signature_good(public_key(self.secret()), endpoint_id@, payload.signature@),
    {
        EndpointAnnouncePayload {
            device_id: self.device_id,
            endpoint_id,
            signature: self.sign(endpoint_id.as_bytes().as_slice()),
        }
    }

    /// Takes the sequence number that the discovery service has last seen: the one
    /// behind it is used next.
    pub fn announced(&mut self, seq: u64)
        requires
            seq < u64::MAX,
        ensures
            final(self).seq_num@ == (match old(self).seq_num@ {
                Some(n) => Some(n),
                None => Some((seq + 1) as u64),
            }),
            final(self).id() == old(self).id(),
            final(self).user() == old(self).user(),
            final(self).secret() == old(self).secret(),
            final(self).store == old(self).store,
            final(self).devices == old(self).devices,
            final(self).waiting() == old(self).waiting(),
            final(self).offered() == old(self).offered(),
    {
        self.seq_num.set(seq + 1);
    }

    /// What this device tells the discovery service to be registered.
    pub fn registration(&self) -> (payload: DeviceCreateRequest)
        ensures
            payload.device_id@ == self.id(),
    {
        DeviceCreateRequest { device_id: self.device_id }
    }

    /// Whether this device is registered.
    pub fn is_registered(&self) -> (registered: bool)
        requires
            self.store.wf(),
        ensures
            registered == (self.store@.contains_pair("registered"@, Json::Bool(true))),
    {
        match self.store.get("registered") {
            Some(value) => match value.as_bool() {
                Some(flag) => flag,
                None => false,
            },
            None => false,
        }
    }

    /// What follows an attempt to register, by the status that came back. On a new
    /// registration the store notes it.
    pub fn registration_reply(&mut self, status: Option<u16>) -> (step: RegisterStep)
        requires
            old(self).store.wf(),
        ensures
            final(self).store.wf(),
            step == (match status {
                Some(201) => RegisterStep::Save,
                Some(200) => RegisterStep::Done,
                _ => RegisterStep::RetryAfter(REGISTER_DELAY_MS),
            }),
            final(self).store@ == (if status == Some(201u16) {
                old(self).store@.insert("registered"@, Json::Bool(true))
            } else {
                old(self).store@
            }),
            final(self).store.file() == old(self).store.file(),
            final(self).id() == old(self).id(),
            final(self).user() == old(self).user(),
            final(self).secret() == old(self).secret(),
            final(self).seq_num == old(self).seq_num,
            final(self).devices == old(self).devices,
            final(self).waiting() == old(self).waiting(),
            final(self).offered() == old(self).offered(),
    {
        match status {
            Some(201) => {
                self.store.set("registered", Value::Bool(true));
                RegisterStep::Save
            },
            Some(200) => RegisterStep::Done,
            _ => RegisterStep::RetryAfter(REGISTER_DELAY_MS),
        }
    }

    /// What this device asks the discovery service about some devices, or about all
    /// that it knows; nothing where there are none to ask about.
    pub fn resolve_request(&self, devices: Option<Vec<DeviceId>>, endpoint_id: EndpointId) -> (request: Option<
        ResolveDevicesRequest,
    >)
        requires
            self.devices.wf(),
        ensures
            match request {
                None => match devices {
                    Some(list) => list@.len() == 0,
                    None => forall|key: Seq<u8>| !#[trigger] self.devices@.contains_key(key),
                },
                Some(r) => {
                    &&& r.devices@.len() > 0
                    &&& match devices {
                        Some(list) => r.devices@ == list@,
                        None => forall|key: Seq<u8>| #[trigger]
                            self.devices@.contains_key(key) <==> exists|i: int|
                                0 <= i < r.devices@.len() && (#[trigger] r.devices@[i])@ == key,
                    }
                    &&& devices is None ==> forall|i: int, j: int|
                        0 <= i < j < r.devices@.len() ==> (#[trigger] r.devices@[i])@ != (#[trigger] r.devices@[j])@
                    &&& r.endpoint_id == endpoint_id
                    &&& r.device_id@ == self.id()
                    &&& r.signature@ == signature_of(self.secret(), endpoint_id@)
                },
            },
    {
        let devices = match devices {
            None => self.devices.get_all_ids(),
            Some(d) => d,
        };
        if devices.len() == 0 {
            return None;
        }
        Some(
            ResolveDevicesRequest {
                devices,
                endpoint_id,
                device_id: self.device_id,
                signature: self.sign(endpoint_id.as_bytes().as_slice()),
            },
        )
    }
}

/// The message by which a device introduces itself says who it is and is signed for the
/// endpoint that it goes to. One that is signed for another endpoint, or is another
/// message, introduces nobody.
pub proof fn law_hello(id: Seq<u8>, username: Seq<char>, secret: Seq<u8>, target: Seq<u8>, signature: Seq<u8>)
    ensures
        hello_message(id, username, secret, target) == (Message::Hello {
            id,
            username,
            signature: signature_of(secret, target),
        }),
        introduces(Some(Message::Hello { id, username, signature }), target) == signature_good(id, target, signature),
        !introduces(None, target),
        !introduces(Some(Message::Accepted), target),
{
}

/// A connection comes about exactly where the answer is a hello that is signed for this
/// endpoint. Else the error says whether there was no answer, a bad signature, a refusal
/// or another message.
pub proof fn law_connection_comes_about(reply: Option<Message>, my_endpoint: Seq<u8>)
    ensures
        reply_error(reply, my_endpoint) is None <==> introduces(reply, my_endpoint),
        reply is None ==> reply_error(reply, my_endpoint) == Some(ConnectError::NoResponse),
        reply matches Some(m) ==> {
            &&& m is Hello && !introduces(reply, my_endpoint) ==> reply_error(reply, my_endpoint) == Some(
                ConnectError::BadSignature,
            )
            &&& m is Rejected ==> reply_error(reply, my_endpoint) == Some(ConnectError::Rejected)
            &&& !(m is Hello) && !(m is Rejected) ==> reply_error(reply, my_endpoint) == Some(ConnectError::BadMessage)
        },
{
}

/// What a device is told that has to come back later.
pub proof fn law_busy_answers(busy: Message, occupied: Message)
    requires
        busy == busy_message(),
        occupied == occupied_message(),
    ensures
        busy == (Message::Rejected { reason: Some("I'm busy."@) }),
        occupied == (Message::Rejected { reason: Some("Receiver is busy with another offer."@) }),
{
}

/// An endpoint is announced once the service answers with status 200 and a number. A
/// device that the service does not know tries no more. All else is tried again, after
/// four seconds, or at once where the answer could not be made sense of.
pub proof fn law_announcing(status: u16, body: Option<Vec<u8>>)
    ensures
        announce_after(HttpReply::Failed) == AnnounceStep::RetryAfter(4000),
        status == 200 && body is None ==> announce_after(HttpReply::Answered { status, body })
            == AnnounceStep::RetryAfter(4000),
        status == 200 && body is Some ==> match read_u64(body->0@) {
            Some((n, used)) => announce_after(HttpReply::Answered { status, body }) == AnnounceStep::Done(n as u64),
            None => announce_after(HttpReply::Answered { status, body }) == AnnounceStep::RetryAfter(0),
        },
        status == 401 ==> announce_after(HttpReply::Answered { status, body }) == AnnounceStep::GiveUp,
        status != 200 && status != 401 ==> announce_after(HttpReply::Answered { status, body })
            == AnnounceStep::RetryAfter(4000),
        REGISTER_DELAY_MS == 5000,
{
}

/// What a device tells of its endpoint can be read from its bytes: the device, the 32
/// bytes of the endpoint and the signature, with nothing behind.
pub proof fn law_announcement_reads(device: Seq<u8>, endpoint: Seq<u8>, signature: Seq<u8>)
    requires
        endpoint.len() == 32,
        announcement_bytes(device, endpoint, signature).len() <= usize::MAX,
    ensures
        ({
            let bytes = announcement_bytes(device, endpoint, signature);
            let used = (read_blob(bytes)->0).1 as int;
            let last = bytes.skip(used + 32);
            &&& read_blob(bytes) is Some && (read_blob(bytes)->0).0 == device
            &&& bytes.subrange(used, used + 32) == endpoint
            &&& read_blob(last) == Some((signature, last.len()))
        }),
{
    let c = blob_bytes(signature);
    let b = endpoint + c;
    let bytes = announcement_bytes(device, endpoint, signature);
    assert(bytes =~= blob_bytes(device) + b);
    law_blob_read_back(device, b);
    let used = blob_bytes(device).len() as int;
    assert(bytes.subrange(used, used + 32) =~= endpoint);
    assert(bytes.skip(used + 32) =~= c);
    assert(c + Seq::<u8>::empty() =~= c);
    law_blob_read_back(signature, Seq::empty());
}

/// What a device asks about others is how many there are, each of them in order, then its
/// endpoint, itself and its signature.
pub proof fn law_question_reads(ids: Seq<Seq<u8>>, one: Seq<u8>, endpoint: Seq<u8>, device: Seq<u8>, signature: Seq<u8>)
    ensures
        ids_bytes(Seq::empty()) == Seq::<u8>::empty(),
        ids_bytes(ids.push(one)) == ids_bytes(ids) + blob_bytes(one),
        resolve_bytes(ids, endpoint, device, signature) == varint(ids.len()) + ids_bytes(ids) + endpoint + blob_bytes(
            device,
        ) + blob_bytes(signature),
{
    assert(ids.push(one).drop_last() =~= ids);
}

/// What a pool holds under a key is there exactly where the key is.
pub proof fn law_known(pool: Map<Seq<u8>, DeviceInfo>, id: Seq<u8>)
    ensures
        known(pool, id) is Some <==> pool.contains_key(id),
        pool.contains_key(id) ==> known(pool, id) == Some(pool[id]),
{
}

/// Two offers have the same terms where they have the same name, identity, number of
/// entries and size; requests say the same where they also have the same sender and tree.
pub proof fn law_same_terms(a: TransferOfferRequest, b: TransferOfferRequest)
    ensures
        same_terms(a.inner, b.inner) <==> a.inner.transfer_name@ == b.inner.transfer_name@ && a.inner.transfer_id
            == b.inner.transfer_id && a.inner.entries_num == b.inner.entries_num && a.inner.total_size
            == b.inner.total_size,
        same_request(a, b) ==> same_terms(a.inner, b.inner) && a.sender_name@ == b.sender_name@ && a.inner.tree@
            == b.inner.tree@,
{
}

/// A state speaks for its own device, user and key, and knows what waits for the user. What
/// changes no more than the records leaves all that as it is.
pub proof fn law_state_speaks_for_itself(a: NectanState, b: NectanState)
    ensures
        a.id() == a.device_id@,
        a.user() == a.userinfo@,
        a.secret() == a.signing_key@,
        a.waiting() == a.conn_offer,
        a.offered() == a.transfer_offer,
        a.same_self(&b) ==> a.device_id@ == b.device_id@ && a.userinfo@ == b.userinfo@ && a.signing_key@
            == b.signing_key@ && a.store == b.store && a.seq_num == b.seq_num,
{
}

/// What is said of a connection that did not come about.
pub proof fn law_connect_complaints(e: ConnectError)
    ensures
        e == ConnectError::AlreadyConnected ==> connect_complaint(e) == "Already connected"@,
        e == ConnectError::NoResponse ==> connect_complaint(e) == "Failed to read response."@,
        e == ConnectError::BadSignature ==> connect_complaint(e) == "Failed to verify signature."@,
        e == ConnectError::Rejected ==> connect_complaint(e) == "Remote device rejected connection."@,
        e == ConnectError::BadMessage ==> connect_complaint(e) == "Remote device sent bad message."@,
{
}

/// Where a pool has a device as online it is there under its key, online, over the
/// connection and under the name; a device that is put there as it connects is so.
pub proof fn law_let_in_is_online(
    pool: Map<Seq<u8>, DeviceInfo>,
    id: Seq<u8>,
    username: Seq<char>,
    connection: u64,
    stored: Option<DeviceInfo>,
)
    ensures
        online_as(pool, id, username, connection) <==> pool.contains_key(id) && pool[id].status == DeviceStatus::Online
            && pool[id].connection == Some(connection) && pool[id].username == username && pool[id].id == id
            && !pool[id].deleted,
        online_as(
            pool.insert(id, connected_device(id, username, connection, stored)),
            id,
            username,
            connection,
        ),
{
}

} // verus!
