use nectan::common::SigningKey;
use nectan::devices::{Device, DeviceId, DeviceStatus, DevicesPool, Username};
use nectan::item_io::{
    ended_early, ReadError, ReceiveEvent, ReceiveStage, Receiving, SendEvent, SendStage, Sending,
};
use nectan::messages::{NetMessage, StreamableMessage, Uuid};
use nectan::path::TreePath;
use nectan::path_tree::PathTree;
use nectan::protocol::TransferOffer;
use nectan::queue::ItemQueue;
use nectan::transfers::{
    offer_message, offer_outcome, offer_route, PendingTransfer, SendStep, TransferDirection, TransferItem,
    TransferItemError, TransferItemHeader, TransferOfferError, Transfers,
};

fn path(text: &str) -> TreePath {
    TreePath::from_text(text)
}

fn device_id() -> DeviceId {
    SigningKey::from_bytes(&[1; 32]).verifying_key()
}

fn offer(files: u32) -> TransferOffer<PathTree> {
    let mut tree = PathTree::new();
    let mut next = 0u32;
    for i in 0..files {
        tree.insert(&path(&format!("dir/file{i}")), true, 10, &mut next);
    }
    TransferOffer {
        transfer_name: "Holiday".to_string(),
        transfer_id: Uuid::from_bytes(&[1; 16]),
        entries_num: next,
        total_size: 10 * files as u64,
        tree,
    }
}

fn item() -> TransferItem {
    TransferItem { id: 300, size: 70_000, sent_bytes: 5, is_file: true, path: path("dir/file"), err: None }
}

#[test]
fn items_as_bytes() {
    let mut item = item();
    let expected = postcard::to_allocvec(&(300u32, 70_000u64, 5u64, true, "dir/file", None::<u32>)).unwrap();
    assert_eq!(item.as_bytes().unwrap(), expected);
    let (pending, _) = PendingTransfer::from_offer(device_id(), TransferDirection::Incoming, offer(1), path("/in"));
    item = pending.set_item_progress(Some(item), 9).unwrap();
    assert!(pending.set_item_progress(None, 9).is_none());
    assert!(pending.set_item_error(None, TransferItemError::OpenFail).is_none());
    let errors = [
        TransferItemError::FileIOError,
        TransferItemError::FileAlreadyExisted,
        TransferItemError::FileOpenPermissionDenied,
        TransferItemError::FileNotFound,
        TransferItemError::StreamError,
        TransferItemError::OpenFail,
        TransferItemError::Terminated,
    ];
    for (n, e) in errors.into_iter().enumerate() {
        item = pending.set_item_error(Some(item), e).unwrap();
        let bytes = item.as_bytes().unwrap();
        let expected = postcard::to_allocvec(&(300u32, 70_000u64, 9u64, true, "dir/file", Some(n as u32))).unwrap();
        assert_eq!(bytes, expected);
        let back = TransferItem::from_bytes(&bytes).unwrap();
        assert_eq!(back.err, Some(e));
        assert_eq!((back.id, back.size, back.sent_bytes, back.is_file), (300, 70_000, 9, true));
        assert!(back.path.same_as(&item.path));
    }
    assert!(TransferItem::from_bytes(&expected[..3]).is_none());
    let unknown = postcard::to_allocvec(&(1u32, 1u64, 1u64, true, "x", Some(7u32))).unwrap();
    assert!(TransferItem::from_bytes(&unknown).is_none());
    item.path = TreePath::from_bytes(&[0xff]);
    assert!(item.as_bytes().is_none());
}

#[test]
fn headers_as_bytes() {
    let header = TransferItemHeader::of_item(&item());
    let bytes = header.to_bytes().unwrap();
    assert_eq!(bytes, postcard::to_allocvec(&(300u32, 70_000u64, 5u64, true, "dir/file")).unwrap());
    let back = TransferItemHeader::from_bytes(&bytes).unwrap();
    assert_eq!((back.id, back.file_size, back.sent_bytes, back.is_file), (300, 70_000, 5, true));
    assert!(TransferItemHeader::from_bytes(&bytes[..bytes.len() - 1]).is_none());
    let frame = header.write().unwrap();
    assert_eq!(&frame[4..], &bytes[..]);
    assert_eq!(TransferItemHeader::read(&frame[4..]).unwrap().id, 300);
    let odd = TransferItemHeader { path: TreePath::from_bytes(&[0xff]), ..header };
    assert!(odd.write().is_none());
}

#[test]
fn items_are_handed_out_in_tens() {
    let mut queue = ItemQueue::new(23);
    assert_eq!(queue.unsent_batch(), (0..10).collect::<Vec<usize>>());
    queue.put_back(4);
    assert_eq!(queue.unsent_batch(), vec![4, 10, 11, 12, 13, 14, 15, 16, 17, 18]);
    assert_eq!(queue.unsent_batch(), vec![19, 20, 21, 22]);
    assert!(queue.unsent_batch().is_empty());
}

#[test]
fn offers_become_transfers() {
    let (pending, items) = PendingTransfer::from_offer(device_id(), TransferDirection::Outcoming, offer(3), path("/in"));
    assert_eq!(pending.total_items, 4);
    assert_eq!(pending.root_path.to_bytes(), b"dir");
    let listed: Vec<(u32, Vec<u8>, bool, u64)> =
        items.iter().map(|i| (i.id, i.path.to_bytes(), i.is_file, i.size)).collect();
    assert_eq!(listed[0], (0, b"dir".to_vec(), false, 0));
    assert_eq!(listed[2], (2, b"file1".to_vec(), true, 10));
    assert_eq!(
        pending.db_path(&path("/data")).to_bytes(),
        b"/data/Nectan/t-01010101-0101-0101-0101-010101010101-out"
    );
    assert!(!pending.takes_streams());
    let (incoming, _) = PendingTransfer::from_offer(device_id(), TransferDirection::Incoming, offer(1), path("/in"));
    assert!(incoming.takes_streams());
    assert_eq!(incoming.root_path.to_bytes(), b"/in");
    assert_eq!(
        incoming.db_path(&path("/data")).to_bytes(),
        b"/data/Nectan/t-01010101-0101-0101-0101-010101010101-in"
    );
}

#[test]
fn received_items_are_counted_once() {
    let (mut pending, _) = PendingTransfer::from_offer(device_id(), TransferDirection::Incoming, offer(3), path("/in"));
    assert_eq!(pending.item_received(Ok(())), 3);
    assert_eq!(pending.item_received(Err(TransferItemError::StreamError)), 3);
    assert_eq!(pending.item_received(Err(TransferItemError::Terminated)), 3);
    assert_eq!(pending.item_received(Err(TransferItemError::FileIOError)), 2);
    assert_eq!(pending.failed, 1);
    assert_eq!(pending.item_received(Ok(())), 1);
    assert!(!pending.cancelled);
    assert_eq!(pending.item_received(Ok(())), 0);
    assert!(pending.cancelled);
}

#[test]
fn sending_until_drained() {
    let (mut pending, _) = PendingTransfer::from_offer(device_id(), TransferDirection::Outcoming, offer(2), path("/in"));
    let mut queue = pending.unsent_batch();
    assert_eq!(queue, vec![0, 1, 2]);
    assert_eq!(pending.send_step(&mut queue), SendStep::Item(2));
    assert_eq!(pending.send_step(&mut queue), SendStep::Item(1));
    assert_eq!(pending.send_step(&mut queue), SendStep::Item(0));
    pending.item_sent(2, Ok(()));
    pending.item_sent(1, Err(TransferItemError::StreamError));
    pending.item_sent(0, Ok(()));
    assert_eq!(pending.send_step(&mut queue), SendStep::Refilled);
    assert_eq!(pending.send_step(&mut queue), SendStep::Item(1));
    pending.item_sent(1, Ok(()));
    assert_eq!(pending.send_step(&mut queue), SendStep::Drained);
    pending.cancel();
    assert!(pending.cancelled);
}

#[test]
fn transfers_are_found_by_identity() {
    let mut transfers = Transfers::new();
    let id = Uuid::from_bytes(&[1; 16]);
    assert!(transfers.get(&id).is_none());
    let (items, sends) = transfers.new_offer(device_id(), TransferDirection::Outcoming, offer(1), true, path("/in"));
    assert_eq!(items.len(), 2);
    assert!(sends);
    assert_eq!(transfers.get(&id).unwrap().total_items, 2);
    let (_, sends) = transfers.new_offer(device_id(), TransferDirection::Incoming, offer(4), true, path("/in"));
    assert!(!sends);
    assert_eq!(transfers.get(&id).unwrap().total_items, 5);
    let (_, sends) = transfers.new_offer(device_id(), TransferDirection::Outcoming, offer(4), false, path("/in"));
    assert!(!sends);
    assert!(transfers.get(&Uuid::from_bytes(&[2; 16])).is_none());
    let taken = transfers.take(&id).unwrap();
    assert!(transfers.take(&id).is_none());
    transfers.insert(taken);
    assert!(transfers.get(&id).is_some());
}

#[test]
fn offers_to_devices() {
    let mut pool = DevicesPool::new(None, path("/data"), Vec::new());
    assert_eq!(offer_route(&pool, &device_id()), Err(TransferOfferError::InvalidDestination));
    let mut device = Device {
        username: Username::default(),
        id: device_id(),
        connection: None,
        status: DeviceStatus::Online,
        deleted: false,
        total_exchanged_data: 0,
        completed_transfers: 0,
        fav: false,
    };
    pool.insert(device.clone());
    assert_eq!(offer_route(&pool, &device_id()), Err(TransferOfferError::DeviceOffline));
    device.connection = Some(6);
    pool.insert(device);
    assert_eq!(offer_route(&pool, &device_id()), Ok(6));
    match offer_message(offer(2)) {
        NetMessage::TransferOfferMsg { offer } => {
            assert_eq!(offer.entries_num, 3);
            assert_eq!(offer.decompress().unwrap().tree.count(), 3);
        }
        other => panic!("{other:?}"),
    }
    assert_eq!(offer_outcome(None), Err(TransferOfferError::ConnectionFailed));
    assert_eq!(
        offer_outcome(Some(NetMessage::Rejected { reason: None })),
        Err(TransferOfferError::TransferRejected)
    );
    assert_eq!(offer_outcome(Some(NetMessage::Accepted)), Ok(()));
    let odd = NetMessage::ContainerStream { id: Uuid::from_bytes(&[2; 16]) };
    assert_eq!(offer_outcome(Some(odd)), Err(TransferOfferError::UnexpectedResponse));
    assert_eq!(TransferOfferError::DeviceOffline.to_string(), "DeviceOffline");
    assert_eq!(TransferOfferError::UnexpectedResponse.to_string(), "UnexpectedResponse");
}

fn header(is_file: bool, to: &str) -> TransferItemHeader {
    TransferItemHeader { id: 1, file_size: 10, sent_bytes: 4, is_file, path: path(to) }
}

fn run(mut receiving: Receiving, events: &[ReceiveEvent]) -> Receiving {
    for event in events {
        receiving.step(*event);
    }
    receiving
}

#[test]
fn items_stay_under_the_root() {
    for (to, output, lock) in [
        ("a/b", "/out/a/b", "/out/a/b.NectanLock"),
        ("/etc/passwd", "/out/etc/passwd", "/out/etc/passwd.NectanLock"),
        ("../../x", "/out/x", "/out/x.NectanLock"),
        ("./y/../z", "/out/y/z", "/out/y/z.NectanLock"),
        ("..", "/out", "/out/.NectanLock"),
    ] {
        let receiving = Receiving::begin(&path("/out"), &header(true, to));
        assert_eq!(receiving.output.to_bytes(), output.as_bytes());
        assert_eq!(receiving.lock.to_bytes(), lock.as_bytes());
    }
}

#[test]
fn items_stay_under_the_root_on_windows() {
    let root = TreePath::from_windows_bytes(b"D:\\in");
    for (to, output) in [
        ("a/b", "D:/in/a/b"),
        ("a\\b", "D:/in/a/b"),
        ("..\\..\\x", "D:/in/x"),
        ("C:\\Windows\\x", "D:/in/Windows/x"),
        ("/C:/x", "D:/in/x"),
        ("x\\C:\\y", "D:/in/x/y"),
        ("C:y", "D:/in/y"),
        ("\\y\\.", "D:/in/y"),
        ("..", "D:/in"),
    ] {
        let receiving = Receiving::begin_on_windows(&root, &header(true, to));
        assert_eq!(receiving.output.to_windows_bytes(), output.as_bytes(), "{to}");
    }
    let lock = Receiving::begin_on_windows(&root, &header(true, "a\\b")).lock;
    assert_eq!(lock.to_windows_bytes(), b"D:/in/a/b.NectanLock");
}

#[test]
fn windows_paths() {
    for (text, parts, back) in [
        (&b"C:\\a\\b"[..], vec![&b"/"[..], b"C:", b"a", b"b"], &b"C:/a/b"[..]),
        (b"C:/", vec![b"/", b"C:"], b"C:/"),
        (b"C:", vec![b"/", b"C:"], b"C:/"),
        (b"C:a", vec![b"/", b"C:", b"a"], b"C:/a"),
        (b"a\\.\\..\\b/", vec![b"a", b"..", b"b"], b"a/../b"),
        (b"\\a", vec![b"/", b"a"], b"/a"),
        (b"", vec![], b""),
    ] {
        let path = TreePath::from_windows_bytes(text);
        let found: Vec<&[u8]> = (0..path.len()).map(|i| path.part(i).as_slice()).collect();
        assert_eq!(found, parts);
        assert_eq!(path.to_windows_bytes(), back);
        assert!(TreePath::from_windows_bytes(back).same_as(&path));
    }
}

#[test]
fn receiving_a_file() {
    let begin = || Receiving::begin(&path("/out"), &header(true, "a"));
    let opened = [ReceiveEvent::Exists(false), ReceiveEvent::Fine, ReceiveEvent::Fine, ReceiveEvent::Fine];
    assert_eq!(begin().stage, ReceiveStage::CheckExisting);
    assert_eq!(begin().start, 4);
    let done = run(begin(), &[&opened[..], &[ReceiveEvent::Chunk(6), ReceiveEvent::Fine, ReceiveEvent::End, ReceiveEvent::Fine, ReceiveEvent::Fine]].concat());
    assert_eq!(done.stage, ReceiveStage::Done);
    assert_eq!(done.total_written, 10);
    let failed = |events: &[ReceiveEvent]| match run(begin(), events).stage {
        ReceiveStage::Failed(e) => e,
        other => panic!("{other:?}"),
    };
    assert_eq!(failed(&[ReceiveEvent::Exists(true)]), TransferItemError::FileAlreadyExisted);
    assert_eq!(failed(&[ReceiveEvent::Wrong]), TransferItemError::OpenFail);
    assert_eq!(failed(&[ReceiveEvent::Exists(false), ReceiveEvent::Wrong]), TransferItemError::FileIOError);
    assert_eq!(failed(&[ReceiveEvent::Exists(false), ReceiveEvent::Fine, ReceiveEvent::Wrong]), TransferItemError::FileIOError);
    assert_eq!(failed(&[ReceiveEvent::Exists(false), ReceiveEvent::Fine, ReceiveEvent::Fine, ReceiveEvent::Wrong]), TransferItemError::FileIOError);
    let then = |events: &[ReceiveEvent]| failed(&[&opened[..], events].concat());
    assert_eq!(then(&[ReceiveEvent::Cancelled]), TransferItemError::Terminated);
    assert_eq!(then(&[ReceiveEvent::Wrong]), TransferItemError::StreamError);
    assert_eq!(then(&[ReceiveEvent::Chunk(2), ReceiveEvent::Wrong]), TransferItemError::FileIOError);
    assert_eq!(then(&[ReceiveEvent::Chunk(2), ReceiveEvent::Fine, ReceiveEvent::End, ReceiveEvent::Fine]), TransferItemError::StreamError);
    assert_eq!(then(&[ReceiveEvent::Chunk(2), ReceiveEvent::Fine, ReceiveEvent::End, ReceiveEvent::Wrong]), TransferItemError::FileIOError);
    assert_eq!(then(&[ReceiveEvent::Chunk(6), ReceiveEvent::Fine, ReceiveEvent::End, ReceiveEvent::Wrong]), TransferItemError::FileIOError);
    assert_eq!(then(&[ReceiveEvent::Chunk(6), ReceiveEvent::Fine, ReceiveEvent::End, ReceiveEvent::Fine, ReceiveEvent::Wrong]), TransferItemError::FileIOError);
    assert_eq!(then(&[ReceiveEvent::Cancelled, ReceiveEvent::Fine, ReceiveEvent::Fine]), TransferItemError::Terminated);
}

#[test]
fn receiving_a_directory() {
    let begin = |root: &str, to: &str| Receiving::begin(&path(root), &header(false, to));
    assert_eq!(begin("/out", "x/y").stage, ReceiveStage::MakeDirectory);
    assert_eq!(begin("/out", "x/y").output.to_bytes(), b"/out/x/y");
    assert_eq!(run(begin("/out", "x/y"), &[ReceiveEvent::Fine]).stage, ReceiveStage::Done);
    assert_eq!(
        run(begin("/out", "a"), &[ReceiveEvent::Wrong]).stage,
        ReceiveStage::Failed(TransferItemError::FileIOError)
    );
}

#[test]
fn items_are_seen_from_the_root() {
    let mut tree = PathTree::new();
    let mut next = 0u32;
    tree.insert(&path("/a/b/c"), true, 1, &mut next);
    tree.insert(&path("/a/b/d"), true, 2, &mut next);
    let offer = TransferOffer {
        transfer_name: "Holiday".to_string(),
        transfer_id: Uuid::from_bytes(&[1; 16]),
        entries_num: next,
        total_size: 3,
        tree,
    };
    let (pending, items) =
        PendingTransfer::from_offer(device_id(), TransferDirection::Outcoming, offer, path("/in"));
    assert_eq!(pending.root_path.to_bytes(), b"/a/b");
    let paths: Vec<Vec<u8>> = items.iter().map(|i| i.path.to_bytes()).collect();
    assert_eq!(paths[3..], [b"c".to_vec(), b"d".to_vec()]);
    for item in items {
        let full: &[u8] = if item.size == 1 { b"/a/b/c" } else { b"/a/b/d" };
        if item.is_file {
            let sending = Sending::begin(&pending.root_path, pending.id, item);
            assert_eq!(sending.file.to_bytes(), full);
        }
    }
}

fn send(events: &[SendEvent]) -> Sending {
    let mut sending = Sending::begin(&path("/root"), Uuid::from_bytes(&[1; 16]), item());
    for event in events {
        sending.step(*event);
    }
    sending
}

#[test]
fn sending_a_file() {
    let begun = send(&[]);
    assert_eq!(begun.file.to_bytes(), b"/root/dir/file");
    assert_eq!(begun.stage, SendStage::Open);
    assert!(matches!(begun.request(), NetMessage::TransferStream { .. }));
    assert_eq!(begun.header().file_size, 70_000);
    let done = send(&[SendEvent::Fine, SendEvent::Fine, SendEvent::Fine, SendEvent::Bytes(100), SendEvent::Fine, SendEvent::Bytes(7), SendEvent::Fine, SendEvent::Bytes(0)]);
    assert_eq!(done.stage, SendStage::Done);
    assert_eq!(done.item.sent_bytes, 112);
    let failed = |events: &[SendEvent]| match send(events).stage {
        SendStage::Failed(e) => e,
        other => panic!("{other:?}"),
    };
    assert_eq!(failed(&[SendEvent::PermissionDenied]), TransferItemError::FileOpenPermissionDenied);
    assert_eq!(failed(&[SendEvent::NotFound]), TransferItemError::FileNotFound);
    assert_eq!(failed(&[SendEvent::Wrong]), TransferItemError::OpenFail);
    assert_eq!(failed(&[SendEvent::Fine, SendEvent::Wrong]), TransferItemError::StreamError);
    assert_eq!(failed(&[SendEvent::Fine, SendEvent::Fine, SendEvent::Wrong]), TransferItemError::StreamError);
    assert_eq!(failed(&[SendEvent::Fine, SendEvent::Fine, SendEvent::Fine, SendEvent::Wrong]), TransferItemError::FileIOError);
    assert_eq!(failed(&[SendEvent::Fine, SendEvent::Fine, SendEvent::Fine, SendEvent::Cancelled]), TransferItemError::Terminated);
    assert_eq!(failed(&[SendEvent::Fine, SendEvent::Fine, SendEvent::Fine, SendEvent::Bytes(3), SendEvent::Wrong]), TransferItemError::StreamError);
}

#[test]
fn streams_that_end_early() {
    assert_eq!(ended_early(0), ReadError::UnexpectedEof);
    assert_eq!(ended_early(3), ReadError::InvalidData);
}
