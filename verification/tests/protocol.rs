use nectan::code_lookup::{
    code_from, gen_code, issue_step, lookup_outcome, CodeLookupError, CodeLookupRequest, IssueStep,
};
use nectan::common::SigningKey;
use nectan::devices::{Device, DeviceStatus, DevicesPool, UserInfo, Username};
use nectan::messages::{NetMessage, UiResponse, Uuid};
use nectan::path::TreePath;
use nectan::path_tree::{CompressedPathTree, PathTree, TreeError};
use nectan::protocol::{
    announce_step, discovery_step, offer_answered, stream_request, AcceptStep, AnnounceStep, ConnectError,
    DiscoveryEvent, DiscoveryStep, EndpointAnncounceResponse, EndpointId, HttpReply, NectanState, OfferStep,
    RegisterStep, SeqNumber, StreamRequest, TransferOffer,
};
use nectan::storage_utils::KvStore;

fn state(seed: u8, name: &str) -> NectanState {
    let key = SigningKey::from_bytes(&[seed; 32]);
    NectanState::build(
        UserInfo::new(Username::new(name.to_string()).unwrap()),
        key.verifying_key(),
        key,
        DevicesPool::new(None, TreePath::from_text("/data"), Vec::new()),
        KvStore::new(TreePath::from_text("/data"), "store", Vec::new()),
    )
}

fn endpoint(n: u8) -> EndpointId {
    EndpointId::from_bytes(&[n; 32])
}

#[test]
fn strangers_wait_for_the_user() {
    let mut me = state(1, "Me there");
    let you = state(2, "You");
    let hello = you.hello(&endpoint(10));
    let step = me.accept_hello(&endpoint(10), &endpoint(20), false, 5, Some(hello));
    let visitor = match step {
        AcceptStep::AskUser { offer, visitor } => {
            assert_eq!(offer.username.to_string(), "You");
            assert!(offer.remote_device_id.same_as(&you.device_id()));
            assert!(!offer.nearby);
            visitor
        }
        other => panic!("{other:?}"),
    };
    // A second one is told that we are busy.
    let other = state(3, "Third");
    match me.accept_hello(&endpoint(10), &endpoint(30), false, 6, Some(other.hello(&endpoint(10)))) {
        AcceptStep::Refuse { reply: Some(NetMessage::Rejected { reason }) } => {
            assert_eq!(reason.as_deref(), Some("I'm busy."));
        }
        other => panic!("{other:?}"),
    }
    assert!(me.respond_connection_offer(UiResponse::Accept).is_some());
    assert!(me.respond_connection_offer(UiResponse::Accept).is_none());
    match me.accept_answer(visitor, 5, Some(UiResponse::Accept)) {
        AcceptStep::Welcome { reply, device } => {
            assert_eq!(device.connection, Some(5));
            assert_eq!(device.status, DeviceStatus::Online);
            let mut you = you;
            // The answer is good for the one who asked.
            let known = you.connect_reply(&endpoint(20), 7, Some(reply)).unwrap();
            assert_eq!(known.username.to_string(), "Me there");
            assert!(you.devices.get(&me.device_id()).is_some());
        }
        other => panic!("{other:?}"),
    }
    assert!(me.devices.get(&state(2, "You").device_id()).is_some());
}

#[test]
fn devices_nearby_and_known_are_let_in() {
    let mut me = state(1, "Me there");
    let you = state(2, "You");
    match me.accept_hello(&endpoint(10), &endpoint(20), true, 5, Some(you.hello(&endpoint(10)))) {
        AcceptStep::Welcome { .. } => {}
        other => panic!("{other:?}"),
    }
    let mut record: Device = me.devices.get(&you.device_id()).unwrap();
    record.fav = true;
    record.completed_transfers = 8;
    record.total_exchanged_data = 9;
    me.devices.insert(record);
    match me.accept_hello(&endpoint(10), &endpoint(20), false, 6, Some(you.hello(&endpoint(10)))) {
        AcceptStep::Welcome { device, .. } => {
            assert!(device.fav);
            assert_eq!((device.completed_transfers, device.total_exchanged_data), (8, 9));
            assert_eq!(device.connection, Some(6));
        }
        other => panic!("{other:?}"),
    }
}

#[test]
fn who_is_turned_away() {
    let mut me = state(1, "Me there");
    let you = state(2, "You");
    let refused = |step: AcceptStep| matches!(step, AcceptStep::Refuse { reply: None });
    assert!(refused(me.accept_hello(&endpoint(10), &endpoint(20), true, 5, None)));
    assert!(refused(me.accept_hello(&endpoint(10), &endpoint(20), true, 5, Some(NetMessage::Accepted))));
    // Signed for another endpoint.
    let hello = you.hello(&endpoint(11));
    assert!(refused(me.accept_hello(&endpoint(10), &endpoint(20), true, 5, Some(hello))));
    let visit = |me: &mut NectanState| match me.accept_hello(
        &endpoint(10),
        &endpoint(20),
        false,
        5,
        Some(state(2, "You").hello(&endpoint(10))),
    ) {
        AcceptStep::AskUser { visitor, .. } => visitor,
        other => panic!("{other:?}"),
    };
    let visitor = visit(&mut me);
    assert!(refused(me.accept_answer(visitor, 5, None)));
    assert!(me.respond_connection_offer(UiResponse::Accept).is_some());
    let visitor = visit(&mut me);
    match me.accept_answer(visitor, 5, Some(UiResponse::Reject { reason: Some("no".to_string()) })) {
        AcceptStep::Refuse { reply: Some(NetMessage::Rejected { reason: None }) } => {}
        other => panic!("{other:?}"),
    }
}

#[test]
fn connecting() {
    let mut me = state(1, "Me there");
    let you = state(2, "You");
    assert_eq!(me.connect_start(true, &endpoint(20)).err(), Some(ConnectError::AlreadyConnected));
    assert!(me.connect_start(false, &endpoint(20)).is_ok());
    let no = |me: &mut NectanState, reply| me.connect_reply(&endpoint(10), 1, reply).err();
    assert_eq!(no(&mut me, None), Some(ConnectError::NoResponse));
    assert_eq!(no(&mut me, Some(you.hello(&endpoint(11)))), Some(ConnectError::BadSignature));
    assert_eq!(no(&mut me, Some(NetMessage::Rejected { reason: None })), Some(ConnectError::Rejected));
    assert_eq!(no(&mut me, Some(NetMessage::Accepted)), Some(ConnectError::BadMessage));
    assert!(me.devices.get(&you.device_id()).is_none());
    assert_eq!(no(&mut me, Some(you.hello(&endpoint(10)))), None);
    assert!(me.devices.get(&you.device_id()).is_some());
    assert_eq!(ConnectError::Rejected.message(), "Remote device rejected connection.");
    assert_eq!(ConnectError::AlreadyConnected.message(), "Already connected");
    assert_eq!(ConnectError::NoResponse.message(), "Failed to read response.");
    assert_eq!(ConnectError::BadSignature.message(), "Failed to verify signature.");
    assert_eq!(ConnectError::BadMessage.message(), "Remote device sent bad message.");
}

fn tree() -> PathTree {
    let mut tree = PathTree::new();
    let mut next = 0u32;
    tree.insert(&TreePath::from_text("a/b"), true, 5, &mut next);
    tree
}

fn offer() -> TransferOffer<CompressedPathTree> {
    TransferOffer {
        transfer_name: "Holiday".to_string(),
        transfer_id: Uuid::from_bytes(&[1; 16]),
        entries_num: 2,
        total_size: 5,
        tree: tree(),
    }
    .compress()
}

#[test]
fn one_offer_waits_at_a_time() {
    let mut me = state(1, "Me there");
    let mut broken = offer();
    broken.tree = CompressedPathTree::from_bytes(vec![1, 2, 3]);
    assert!(matches!(me.receive_offer("You".to_string(), broken), OfferStep::Broken(TreeError::Compression)));
    match me.receive_offer("You".to_string(), offer()) {
        OfferStep::AskUser { request } => {
            assert_eq!(request.sender_name, "You");
            assert_eq!(request.inner.transfer_name, "Holiday");
            assert_eq!(request.inner.tree.count(), 2);
        }
        other => panic!("{other:?}"),
    }
    match me.receive_offer("Third".to_string(), offer()) {
        OfferStep::Busy { reply: NetMessage::Rejected { reason } } => {
            assert_eq!(reason.as_deref(), Some("Receiver is busy with another offer."));
        }
        other => panic!("{other:?}"),
    }
    assert!(me.respond_transfer_offer(UiResponse::Accept).is_some());
    assert!(me.respond_transfer_offer(UiResponse::Accept).is_none());
    assert!(matches!(me.receive_offer("Third".to_string(), offer()), OfferStep::AskUser { .. }));
}

#[test]
fn answers_to_offers() {
    assert!(offer_answered(None).is_none());
    let (message, begins) = offer_answered(Some(UiResponse::Accept)).unwrap();
    assert!(matches!(message, NetMessage::Accepted));
    assert!(begins);
    let (message, begins) = offer_answered(Some(UiResponse::Reject { reason: None })).unwrap();
    assert!(matches!(message, NetMessage::Rejected { reason: None }));
    assert!(!begins);
}

#[test]
fn what_streams_ask_for() {
    let offered = NetMessage::TransferOfferMsg { offer: offer() };
    assert!(matches!(stream_request(offered), StreamRequest::Offer(_)));
    let stream = NetMessage::TransferStream { transfer_id: Uuid::from_bytes(&[4; 16]) };
    match stream_request(stream) {
        StreamRequest::Transfer(id) => assert_eq!(id.as_bytes(), &[4; 16]),
        other => panic!("{other:?}"),
    }
    assert!(matches!(stream_request(NetMessage::Accepted), StreamRequest::Forbidden));
    let container = NetMessage::ContainerStream { id: Uuid::from_bytes(&[4; 16]) };
    assert!(matches!(stream_request(container), StreamRequest::Forbidden));
}

#[test]
fn sequence_numbers() {
    let mut seq = SeqNumber::new();
    assert_eq!(seq.get_and_inc(), None);
    seq.set(7);
    seq.set(100);
    assert_eq!(seq.get_and_inc(), Some(7));
    assert_eq!(seq.get_and_inc(), Some(8));
    let mut last = SeqNumber::default();
    last.set(u64::MAX);
    assert_eq!(last.get_and_inc(), Some(u64::MAX));
    assert_eq!(last.get_and_inc(), Some(0));
}

fn answered(status: u16, body: Option<Vec<u8>>) -> HttpReply {
    HttpReply::Answered { status, body }
}

#[test]
fn announcing_an_endpoint() {
    let mut me = state(1, "Me there");
    let payload = me.announcement(endpoint(4));
    assert!(payload.device_id.same_as(&me.device_id()));
    assert_eq!(payload.signature.as_bytes(), me.sign(&[4; 32]).as_bytes());
    let key = me.device_id().as_bytes().to_vec();
    let signature = payload.signature.as_bytes().to_vec();
    assert_eq!(payload.to_bytes(), postcard::to_allocvec(&(&key, [4u8; 32], &signature)).unwrap());
    let body = postcard::to_allocvec(&300u64).unwrap();
    assert_eq!(EndpointAnncounceResponse::from_bytes(&body).unwrap().seq_num, 300);
    assert!(EndpointAnncounceResponse::from_bytes(&[0x80]).is_none());
    assert_eq!(announce_step(answered(200, Some(body))), AnnounceStep::Done(300));
    assert_eq!(announce_step(answered(200, Some(vec![]))), AnnounceStep::RetryAfter(0));
    assert_eq!(announce_step(answered(200, None)), AnnounceStep::RetryAfter(4000));
    assert_eq!(announce_step(answered(404, None)), AnnounceStep::RetryAfter(4000));
    assert_eq!(announce_step(answered(401, None)), AnnounceStep::GiveUp);
    assert_eq!(announce_step(answered(500, None)), AnnounceStep::RetryAfter(4000));
    assert_eq!(announce_step(HttpReply::Failed), AnnounceStep::RetryAfter(4000));
    me.announced(300);
    assert_eq!(me.seq_num.get_and_inc(), Some(301));
}

#[test]
fn registering() {
    let mut me = state(1, "Me there");
    assert!(!me.is_registered());
    assert!(me.registration().device_id.same_as(&me.device_id()));
    let key = ed25519_dalek::SigningKey::from_bytes(&[1; 32]).verifying_key();
    assert_eq!(me.registration().to_bytes(), postcard::to_allocvec(&key).unwrap());
    assert_eq!(me.registration_reply(None), RegisterStep::RetryAfter(5000));
    assert_eq!(me.registration_reply(Some(500)), RegisterStep::RetryAfter(5000));
    assert_eq!(me.registration_reply(Some(200)), RegisterStep::Done);
    assert!(!me.is_registered());
    assert_eq!(me.registration_reply(Some(201)), RegisterStep::Save);
    assert!(me.is_registered());
}

#[test]
fn asking_about_devices() {
    let mut me = state(1, "Me there");
    assert!(me.resolve_request(None, endpoint(1)).is_none());
    assert!(me.resolve_request(Some(Vec::new()), endpoint(1)).is_none());
    let you = state(2, "You");
    let _ = me.accept_hello(&endpoint(10), &endpoint(20), true, 5, Some(you.hello(&endpoint(10))));
    let request = me.resolve_request(None, endpoint(1)).unwrap();
    assert_eq!(request.devices.len(), 1);
    assert!(request.devices[0].same_as(&you.device_id()));
    assert_eq!(request.signature.as_bytes(), me.sign(&[1; 32]).as_bytes());
    let mine = ed25519_dalek::SigningKey::from_bytes(&[1; 32]);
    let yours = ed25519_dalek::SigningKey::from_bytes(&[2; 32]).verifying_key();
    let signature = ed25519_dalek::Signer::sign(&mine, &[1; 32]);
    let expected = (vec![yours], [1u8; 32], mine.verifying_key(), signature);
    assert_eq!(request.to_bytes(), postcard::to_allocvec(&expected).unwrap());
}

#[test]
fn devices_that_come_and_go() {
    let found = |n| DiscoveryEvent::Discovered { endpoint: endpoint(n) };
    assert!(matches!(discovery_step(&endpoint(1), found(1)), DiscoveryStep::Ignore));
    assert!(matches!(discovery_step(&endpoint(1), found(2)), DiscoveryStep::Add { .. }));
    let gone = DiscoveryEvent::Expired { endpoint: endpoint(1) };
    assert!(matches!(discovery_step(&endpoint(1), gone), DiscoveryStep::Remove { .. }));
    assert!(matches!(discovery_step(&endpoint(1), DiscoveryEvent::Other), DiscoveryStep::Ignore));
}

#[test]
fn looking_up_codes() {
    assert_eq!(lookup_outcome(Some(302)), CodeLookupError::NotFound);
    assert_eq!(lookup_outcome(Some(404)), CodeLookupError::NotFound);
    assert_eq!(lookup_outcome(Some(500)), CodeLookupError::NectanService);
    assert_eq!(lookup_outcome(None), CodeLookupError::ConnectionFailed);
    let request = CodeLookupRequest { code: "123456".to_string() };
    assert_eq!(request.to_bytes(), postcard::to_allocvec("123456").unwrap());
}

#[test]
fn issuing_codes() {
    let mut me = state(1, "Me there");
    assert!(me.issue_request("123456").is_none());
    me.seq_num.set(0x0102_0304_0506_0708);
    let request = me.issue_request("123456").unwrap();
    assert_eq!(request.code, "123456");
    assert_eq!(request.seq_num, 0x0102_0304_0506_0708);
    let mut signed = me.device_id().as_bytes().to_vec();
    signed.extend_from_slice(&[1, 2, 3, 4, 5, 6, 7, 8]);
    assert_eq!(request.signature.as_bytes(), me.sign(&signed).as_bytes());
    let mine = ed25519_dalek::SigningKey::from_bytes(&[1; 32]);
    let expected =
        (mine.verifying_key(), "123456", request.seq_num, ed25519_dalek::Signer::sign(&mine, &signed));
    assert_eq!(request.to_bytes(), postcard::to_allocvec(&expected).unwrap());
    assert_eq!(me.issue_request("1").unwrap().seq_num, 0x0102_0304_0506_0709);
    let step = |attempt, status, body: Option<&str>| issue_step("123456", attempt, status, body.map(|b| b.to_string()));
    assert!(matches!(step(1, Some(202), None), IssueStep::Issued(code) if code == "123456"));
    assert!(matches!(step(3, Some(201), Some("654321")), IssueStep::Issued(code) if code == "654321"));
    assert!(matches!(step(3, Some(201), None), IssueStep::Issued(code) if code == "Bad response"));
    assert!(matches!(step(1, Some(500), None), IssueStep::RetryAfter(200)));
    assert!(matches!(step(2, None, None), IssueStep::RetryAfter(400)));
    assert!(matches!(step(3, None, None), IssueStep::Failed));
}

#[test]
fn codes_are_six_digits() {
    for _ in 0..50 {
        let code = gen_code();
        assert_eq!(code.len(), 6);
        assert!(code.chars().all(|c| c.is_ascii_digit()));
    }
    assert_eq!(code_from(&[10, 21, 32, 43, 54, u64::MAX]), "012345");
    assert_ne!(gen_code() + &gen_code() + &gen_code(), gen_code() + &gen_code() + &gen_code());
}
