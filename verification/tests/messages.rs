use nectan::common::{Signature, SigningKey};
use nectan::devices::{serialize_device_id, DeviceId, Username};
use nectan::messages::{frame, frame_len, AppEvent, ConnectionOffer, NetMessage, StreamableMessage, UiResponse, Uuid};
use nectan::path_tree::CompressedPathTree;
use nectan::protocol::{gen_device_id, TransferOffer};

fn key() -> SigningKey {
    SigningKey::from_bytes(&[7; 32])
}

fn hello() -> NetMessage {
    NetMessage::Hello {
        id: key().verifying_key(),
        username: Username::new("Simea".to_string()).unwrap(),
        signature: key().sign(b"somewhere"),
    }
}

#[test]
fn hello_on_the_wire() {
    let dalek = ed25519_dalek::SigningKey::from_bytes(&[7; 32]);
    let signature = ed25519_dalek::Signer::sign(&dalek, b"somewhere");
    let expected = postcard::to_allocvec(&(0u32, dalek.verifying_key(), "Simea", signature)).unwrap();
    assert_eq!(hello().to_bytes(), expected);
}

#[test]
fn offer_on_the_wire() {
    let id = uuid::Uuid::from_bytes([9; 16]);
    let tree = vec![1u8, 2, 3];
    let message = NetMessage::TransferOfferMsg {
        offer: TransferOffer {
            transfer_name: "Holiday".to_string(),
            transfer_id: Uuid::from_bytes(&[9; 16]),
            entries_num: 300,
            total_size: 1 << 40,
            tree: CompressedPathTree::from_bytes(tree.clone()),
        },
    };
    let expected = postcard::to_allocvec(&(1u32, "Holiday", id, 300u32, 1u64 << 40, tree)).unwrap();
    assert_eq!(message.to_bytes(), expected);
    match NetMessage::from_bytes(&expected) {
        Some(NetMessage::TransferOfferMsg { offer }) => {
            assert_eq!(offer.transfer_name, "Holiday");
            assert_eq!(offer.entries_num, 300);
            assert_eq!(offer.total_size, 1 << 40);
            assert_eq!(offer.tree.as_bytes(), &vec![1u8, 2, 3]);
        }
        other => panic!("{other:?}"),
    }
}

#[test]
fn short_messages_on_the_wire() {
    let id = uuid::Uuid::from_bytes([3; 16]);
    assert_eq!(NetMessage::Accepted.to_bytes(), vec![2]);
    assert_eq!(NetMessage::Rejected { reason: None }.to_bytes(), vec![3, 0]);
    assert_eq!(NetMessage::Rejected { reason: Some("no".to_string()) }.to_bytes(), vec![3, 1, 2, b'n', b'o']);
    let stream = NetMessage::TransferStream { transfer_id: Uuid::from_bytes(&[3; 16]) };
    assert_eq!(stream.to_bytes(), postcard::to_allocvec(&(4u32, id)).unwrap());
    let container = NetMessage::ContainerStream { id: Uuid::from_bytes(&[3; 16]) };
    assert_eq!(container.to_bytes(), postcard::to_allocvec(&(5u32, id)).unwrap());
}

#[test]
fn messages_are_read_back() {
    let reason = Some("not now".to_string());
    let all = vec![
        hello(),
        NetMessage::Accepted,
        NetMessage::Rejected { reason },
        NetMessage::Rejected { reason: None },
        NetMessage::TransferStream { transfer_id: Uuid::new_v4() },
        NetMessage::ContainerStream { id: Uuid::new_v4() },
    ];
    for message in all {
        let mut bytes = message.to_bytes();
        bytes.extend_from_slice(&[1, 2, 3]);
        let back = NetMessage::from_bytes(&bytes).unwrap();
        assert_eq!(back.to_bytes(), message.to_bytes());
    }
}

#[test]
fn bytes_that_say_nothing() {
    assert!(NetMessage::from_bytes(&[]).is_none());
    assert!(NetMessage::from_bytes(&[6]).is_none());
    assert!(NetMessage::from_bytes(&[3]).is_none());
    assert!(NetMessage::from_bytes(&[3, 2]).is_none());
    assert!(NetMessage::from_bytes(&[4, 3, 1, 2, 3]).is_none());
    let bytes = hello().to_bytes();
    assert!(NetMessage::from_bytes(&bytes[..bytes.len() - 1]).is_none());
    let mut no_key = bytes.clone();
    no_key[2..34].copy_from_slice(&[2; 32]);
    assert_eq!(
        NetMessage::from_bytes(&no_key).is_some(),
        ed25519_dalek::VerifyingKey::from_bytes(&[2; 32]).is_ok()
    );
}

#[test]
fn frames() {
    assert_eq!(frame(b"abc"), vec![0, 0, 0, 3, b'a', b'b', b'c']);
    assert_eq!(frame(&[]), vec![0, 0, 0, 0]);
    assert_eq!(frame_len(&[0, 0, 0, 3]), 3);
    assert_eq!(frame_len(&[1, 2, 3, 4]), u32::from_be_bytes([1, 2, 3, 4]));
    assert_eq!(frame_len(&[255; 4]), u32::MAX);
    let long = vec![5u8; 70_000];
    let framed = frame(&long);
    assert_eq!(&framed[..4], &70_000u32.to_be_bytes());
    assert_eq!(&framed[4..], &long[..]);
    let message = NetMessage::Accepted;
    assert_eq!(message.write().unwrap(), vec![0, 0, 0, 1, 2]);
    assert!(NetMessage::read(&message.write().unwrap()[4..]).is_some());
}

#[test]
fn answers_become_messages() {
    assert_eq!(NetMessage::from(UiResponse::Accept).to_bytes(), vec![2]);
    let no = UiResponse::Reject { reason: Some("x".to_string()) };
    assert_eq!(NetMessage::from(no.clone()).to_bytes(), vec![3, 1, 1, b'x']);
    assert_eq!(NetMessage::from(no).to_bytes(), vec![3, 1, 1, b'x']);
}

#[test]
fn texts_of_identities() {
    let bytes = [0x01, 0x23, 0x45, 0x67, 0x89, 0xab, 0xcd, 0xef, 0xfe, 0xdc, 0xba, 0x98, 0x76, 0x54, 0x32, 0x10];
    assert_eq!(Uuid::from_bytes(&bytes).to_string(), "01234567-89ab-cdef-fedc-ba9876543210");
    assert_eq!(Uuid::from_bytes(&bytes).to_string(), uuid::Uuid::from_bytes(bytes).to_string());
    let id = Uuid::new_v4();
    assert_eq!(uuid::Uuid::from_bytes(*id.as_bytes()).get_version_num(), 4);
    assert!(id.same_as(&id));
    assert!(!id.same_as(&Uuid::from_bytes(&bytes)));
}

#[test]
fn events_in_a_log() {
    let (id, _) = gen_device_id();
    let offer = ConnectionOffer { username: Username::default(), remote_device_id: id, nearby: false };
    let events = vec![
        (AppEvent::FoundNearby, "FoundNearby", false),
        (AppEvent::Connected { device_id: id }, "Connected", true),
        (AppEvent::ConnectionOffer { offer }, "NewConnectionRequest", true),
        (AppEvent::TransferOfferDelivered, "TransferOfferDelivered", false),
        (AppEvent::DeviceWentOffline { device_id: id }, "DeviceWentOffline", false),
        (AppEvent::TransferUpdated, "TransferUpdated", false),
    ];
    for (event, label, shows_device) in events {
        assert_eq!(event.label(), label);
        assert_eq!(event.device_text().is_some(), shows_device);
    }
}

#[test]
fn events_as_text() {
    let id = SigningKey::from_bytes(&[7; 32]).verifying_key();
    let shown = serialize_device_id(&id);
    let username = Username::from_remote("An\"n\n".to_string());
    let offer = ConnectionOffer { username, remote_device_id: id, nearby: true };
    assert_eq!(AppEvent::FoundNearby.debug_text(""), "FoundNearby");
    assert_eq!(AppEvent::TransferOfferDelivered.debug_text("x"), "TransferOfferDelivered");
    assert_eq!(
        AppEvent::Connected { device_id: id }.debug_text(""),
        format!("Connected {{ device_id: \"{shown}\" }}")
    );
    assert_eq!(
        AppEvent::ConnectionOffer { offer }.debug_text(""),
        format!(
            "NewConnectionRequest {{ username: \"An\\\"n\\n\", remote_device_id: \"{shown}\", nearby: true, \
             respond: \"Sender {{ .. }}\" }}"
        )
    );
    let key = ed25519_dalek::VerifyingKey::from_bytes(id.as_bytes()).unwrap();
    let lost = AppEvent::DeviceWentOffline { device_id: id };
    assert_eq!(lost.debug_text(""), format!("DeviceWentOffline {{ device_id: {key:?} }}"));
    assert_eq!(lost.text_with("k"), "DeviceWentOffline { device_id: k }");
    let bytes: Vec<String> = id.as_bytes().iter().map(|b| b.to_string()).collect();
    let lead = format!("DeviceWentOffline {{ device_id: VerifyingKey(CompressedEdwardsY: [{}]), EdwardsPoint", bytes.join(", "));
    assert!(lost.debug_text("").starts_with(&lead));
}

#[test]
fn signatures_hold_any_bytes() {
    let signature = Signature::from_bytes(&[8; 64]);
    let message = NetMessage::Hello { id: key().verifying_key(), username: Username::default(), signature };
    let back = NetMessage::from_bytes(&message.to_bytes());
    match back {
        Some(NetMessage::Hello { id, username, signature }) => {
            assert!(id.same_as(&key().verifying_key()));
            assert_eq!(username.to_string(), "Default");
            assert_eq!(signature.as_bytes(), &[8; 64]);
        }
        other => panic!("{other:?}"),
    }
    let id: Option<DeviceId> = DeviceId::from_bytes(key().verifying_key().as_bytes());
    assert!(id.is_some());
}
