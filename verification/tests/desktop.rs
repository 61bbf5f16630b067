use nectan::code_lookup::CodeLookupError;
use nectan::common::SigningKey;
use nectan::devices::{serialize_device_id, Device, DeviceStatus, Username};
use nectan::messages::{AppEvent, ConnectionOffer, UiResponse, Uuid};
use nectan::path::TreePath;
use nectan::path_tree::PathTree;
use nectan::protocol::{TransferOffer, TransferOfferRequest};
use nectan::tabs::{SelectedWindow, Tabs};
use nectan::transfers::TransferOfferError;
use nectan::ui::{
    connect_view, connection_offer_answer, device_items, issue_view, lookup_view, opened_modal, selected_nodes, send_view, shown_name,
    shown_offer, split_code, transfer_offer_answer, ui_action, walk_offer, walk_view, IssueView, LookupState, LookupView, Rows,
    Selected, SendModalState, UiAction,
};
use nectan::walker::{WalkController, WalkState, WalkWorker};

fn ids(tabs: &Tabs) -> Vec<i32> {
    tabs.tabs().iter().map(|t| t.id).collect()
}

#[test]
fn tabs_open_and_close() {
    let mut tabs = Tabs::new();
    assert_eq!(ids(&tabs), vec![0]);
    tabs.open(SelectedWindow::Device, 5, "Phone".to_string());
    tabs.open(SelectedWindow::Device, 6, "Laptop".to_string());
    tabs.open(SelectedWindow::Containers, 9, "Containers".to_string());
    assert_eq!(ids(&tabs), vec![0, 1, 2, 3]);
    assert_eq!(tabs.current(), 3);
    // A device that is open comes to the front, as do transfers whatever the reference.
    tabs.open(SelectedWindow::Device, 5, "Phone".to_string());
    assert_eq!((tabs.current(), tabs.window()), (1, (SelectedWindow::Device, 5)));
    tabs.open(SelectedWindow::Transfers, 77, "Transfers".to_string());
    assert_eq!((tabs.current(), tabs.window()), (0, (SelectedWindow::Transfers, 77)));
    assert_eq!(tabs.tabs().len(), 4);
    // Closing one behind keeps the one in front.
    tabs.close(3);
    assert_eq!((ids(&tabs), tabs.current()), (vec![0, 1, 2], 0));
    // Closing one before moves it.
    tabs.set_current(2);
    tabs.close(0);
    assert_eq!((ids(&tabs), tabs.current()), (vec![1, 2], 1));
    // Closing the last one that is in front.
    tabs.close(2);
    assert_eq!((ids(&tabs), tabs.current()), (vec![1], 0));
    tabs.close(99);
    assert_eq!(ids(&tabs), vec![1]);
    // Closing all opens transfers.
    tabs.close(1);
    assert_eq!((ids(&tabs), tabs.current()), (vec![2], 0));
    assert_eq!(tabs.tabs()[0].display, "Transfers");
    assert_eq!(tabs.tabs()[0].ref_id, 2);
    tabs.open(SelectedWindow::Containers, 0, "Containers".to_string());
    assert_eq!(ids(&tabs), vec![2, 3]);
}

#[test]
fn tabs_move() {
    let mut tabs = Tabs::new();
    tabs.open(SelectedWindow::Device, 1, "One".to_string());
    tabs.open(SelectedWindow::Device, 2, "Two".to_string());
    tabs.reorder(0, 2);
    assert_eq!((ids(&tabs), tabs.current()), (vec![1, 2, 0], 2));
    tabs.reorder(2, 1);
    assert_eq!((ids(&tabs), tabs.current()), (vec![1, 0, 2], 1));
    tabs.reorder(-1, 0);
    tabs.reorder(0, 3);
    tabs.reorder(3, 0);
    tabs.reorder(2, 2);
    assert_eq!((ids(&tabs), tabs.current()), (vec![1, 0, 2], 1));
}

#[test]
fn events_in_the_window() {
    let id = SigningKey::from_bytes(&[1; 32]).verifying_key();
    assert_eq!(ui_action(&AppEvent::TransferUpdated), UiAction::Nothing);
    assert_eq!(ui_action(&AppEvent::FoundNearby), UiAction::UpdateDevices);
    assert_eq!(ui_action(&AppEvent::Connected { device_id: id }), UiAction::UpdateDevices);
    assert_eq!(ui_action(&AppEvent::DeviceWentOffline { device_id: id }), UiAction::UpdateDevices);
    assert_eq!(ui_action(&AppEvent::TransferOfferDelivered), UiAction::WaitForResponse);
    let offer = ConnectionOffer { username: Username::default(), remote_device_id: id, nearby: true };
    assert_eq!(shown_name(&offer), "Default");
    assert_eq!(ui_action(&AppEvent::ConnectionOffer { offer }), UiAction::ShowConnectionOffer);
    let request = TransferOfferRequest {
        sender_name: "Simea".to_string(),
        inner: TransferOffer {
            transfer_name: "Holiday".to_string(),
            transfer_id: Uuid::from_bytes(&[0; 16]),
            entries_num: u32::MAX,
            total_size: 1,
            tree: PathTree::new(),
        },
    };
    let shown = shown_offer(&request);
    assert_eq!((shown.from.as_str(), shown.total_size.as_str(), shown.total_entries), ("Simea", "1.50 kB", -1));
    assert_eq!(shown.transfer_name, "Holiday");
    assert_eq!(ui_action(&AppEvent::IncomingTransferOffer { offer: request }), UiAction::ShowTransferOffer);
}

#[test]
fn answers_of_the_user() {
    for accept in [true, false] {
        match transfer_offer_answer(accept) {
            UiResponse::Reject { reason } => assert_eq!(reason.as_deref(), Some("User rejected the offer.")),
            other => panic!("{other:?}"),
        }
    }
    assert!(matches!(connection_offer_answer(true), UiResponse::Accept));
    match connection_offer_answer(false) {
        UiResponse::Reject { reason } => assert_eq!(reason.as_deref(), Some("User rejected.")),
        other => panic!("{other:?}"),
    }
}

#[test]
fn codes_in_two_groups() {
    assert_eq!(split_code("123456").as_deref(), Some("123 456"));
    assert_eq!(split_code("Bad response").as_deref(), Some("Bad  re"));
    assert_eq!(split_code("12345"), None);
    assert_eq!(split_code("12ł456"), None);
    assert_eq!(split_code("123ł5").as_deref(), Some("123 ł5"));
    assert_eq!(split_code("1234łł"), Some("123 4ł".to_string()));
    assert_eq!(split_code("12345ł"), None);
    assert!(matches!(issue_view(Some("123456".to_string())), IssueView::Code(code) if code == "123 456"));
    assert!(matches!(issue_view(Some("1".to_string())), IssueView::Odd));
    match issue_view(None) {
        IssueView::Failed { title, message } => assert_eq!(
            (title, message),
            ("Error", "Connection error. Make sure you are connected to the internet and try again.")
        ),
        other => panic!("{other:?}"),
    }
}

#[test]
fn looking_for_a_device() {
    assert!(matches!(lookup_view(Ok(())), LookupView::State(LookupState::Connecting)));
    let not_found = lookup_view(Err(CodeLookupError::NotFound));
    assert!(matches!(not_found, LookupView::State(LookupState::CodeNotFound)));
    match lookup_view(Err(CodeLookupError::NectanService)) {
        LookupView::Error { title, message } => assert_eq!((title, message), ("Nectan failed", "Unexpected error.")),
        other => panic!("{other:?}"),
    }
    match lookup_view(Err(CodeLookupError::ConnectionFailed)) {
        LookupView::Error { title, message } => {
            assert_eq!((title, message), ("Connection failed", "Check your connection and try again."))
        }
        other => panic!("{other:?}"),
    }
    assert_eq!(connect_view(true), LookupState::Connected);
    assert_eq!(connect_view(false), LookupState::Rejected);
}

#[test]
fn outcomes_of_offers() {
    let view = |outcome| {
        let v = send_view(outcome);
        (v.state, v.message)
    };
    assert_eq!(view(Ok(())), (Some(SendModalState::Accepted), None));
    assert_eq!(view(Err(TransferOfferError::DeviceOffline)), (Some(SendModalState::Offline), None));
    assert_eq!(view(Err(TransferOfferError::TransferRejected)), (Some(SendModalState::Rejected), None));
    assert_eq!(
        view(Err(TransferOfferError::ConnectionFailed)),
        (Some(SendModalState::Error), Some("Connection failed. Device not reachable."))
    );
    assert_eq!(
        view(Err(TransferOfferError::InvalidDestination)),
        (Some(SendModalState::Error), Some("Invalid destination. Try restarting Nectan."))
    );
    assert_eq!(
        view(Err(TransferOfferError::UnexpectedResponse)),
        (None, Some("Unexcpected error. Device sent wrong message."))
    );
}

fn walk() -> WalkController {
    WalkController::new(vec![TreePath::from_text("/a")], true, false)
}

#[test]
fn walking_over_files() {
    let mut walk = walk();
    let mut one = WalkWorker::new();
    let mut two = WalkWorker::new();
    let entry = |p: &str, is_file, size| Some((TreePath::from_text(p), is_file, size));
    assert_eq!(walk.visit(&mut one, entry("/a", false, 4096)), WalkState::Continue);
    assert_eq!(walk.visit(&mut one, entry("/a/x", true, 10)), WalkState::Continue);
    assert_eq!(walk.visit(&mut two, entry("/a/y", true, 1_490)), WalkState::Continue);
    assert_eq!(walk.visit(&mut two, None), WalkState::Continue);
    assert_eq!((walk.total_entries(), walk.total_size()), (3, 5_596));
    let shown = walk_view(&walk);
    assert_eq!((shown.total_entries, shown.total_size.as_str(), shown.finished), (3, "5.60 kB", false));
    let mut tree = PathTree::new();
    assert_eq!(walk.absorb(&mut tree, vec![one.tree, two.tree]), WalkState::Continue);
    assert_eq!(tree.count(), 4);
    assert_eq!(tree.total_size(), 1_500);
    assert!(walk_offer(&mut walk, Uuid::from_bytes(&[1; 16]), "Early".to_string()).is_none());
    walk.complete(&tree);
    assert!(walk.finished());
    let offer = walk_offer(&mut walk, Uuid::from_bytes(&[1; 16]), "Holiday".to_string()).unwrap();
    assert_eq!((offer.entries_num, offer.total_size), (3, 5_596));
    assert_eq!(offer.decompress().unwrap().tree.count(), 4);
    assert!(walk.take_tree().is_none());
}

#[test]
fn stopping_a_walk() {
    let mut walk = walk();
    let mut worker = WalkWorker::new();
    walk.stop();
    assert!(walk.should_abort());
    let entry = Some((TreePath::from_text("/a"), true, 1));
    assert_eq!(walk.visit(&mut worker, entry), WalkState::Quit);
    let mut tree = PathTree::new();
    assert_eq!(walk.absorb(&mut tree, vec![worker.tree]), WalkState::Quit);
    assert_eq!(tree.count(), 0);
    assert!(!walk.finished());
}

#[test]
fn too_many_entries_for_an_offer() {
    let mut walk = walk();
    walk.complete(&PathTree::new());
    walk.0.total_entries = u32::MAX as u64 + 1;
    assert!(walk_offer(&mut walk, Uuid::from_bytes(&[1; 16]), "Many".to_string()).is_none());
    assert_eq!(walk_view(&walk).total_entries, 0);
    walk.0.total_entries = u32::MAX as u64;
    assert!(walk_offer(&mut walk, Uuid::from_bytes(&[1; 16]), "Many".to_string()).is_some());
}

fn selected(filename: &str, path: &[u8], is_file: bool) -> Selected {
    Selected { filename: filename.to_string(), path: path.to_vec(), is_file }
}

#[test]
fn selected_paths_are_shown() {
    let modal = opened_modal("Holiday".to_string(), &[selected("x", b"/x", true)]);
    assert_eq!((modal.walk.total_entries, modal.walk.total_size.as_str()), (0, "0 B"));
    assert!(modal.open && !modal.walk.finished && modal.nodes.len() == 1);
    assert_eq!((modal.state, modal.transfer_name.as_str()), (SendModalState::Initial, "Holiday"));
    let lines = selected_nodes(&[
        selected("file.txt", b"/home//me/./file.txt", true),
        selected("\u{FFFD}", b"/home/\xff", false),
        selected("", b"/", false),
    ]);
    assert_eq!((lines[0].filename.as_str(), lines[0].path.as_str()), ("file.txt", "/home//me/./file.txt"));
    assert!(lines[0].is_file && !lines[0].expanded && lines[0].depth == 0);
    assert_eq!((lines[1].filename.as_str(), lines[1].path.as_str()), ("\u{FFFD}", "/home/\u{FFFD}"));
    assert!(!lines[1].is_file);
    assert_eq!((lines[2].filename.as_str(), lines[2].path.as_str()), ("", "/"));
}

fn device(seed: u8, status: DeviceStatus, fav: bool) -> Device {
    Device {
        username: Username::new(format!("device {seed}")).unwrap(),
        id: SigningKey::from_bytes(&[seed; 32]).verifying_key(),
        connection: None,
        status,
        deleted: false,
        total_exchanged_data: 2_500,
        completed_transfers: 3,
        fav,
    }
}

#[test]
fn devices_in_order() {
    let devices = [
        device(1, DeviceStatus::Offline, true),
        device(2, DeviceStatus::Online, false),
        device(3, DeviceStatus::Nearby, false),
        device(4, DeviceStatus::Online, true),
        device(5, DeviceStatus::Offline, false),
        device(6, DeviceStatus::Nearby, true),
    ];
    let items = device_items(&devices);
    let names: Vec<&str> = items.iter().map(|d| d.name.as_str()).collect();
    assert_eq!(names, vec!["device 6", "device 3", "device 4", "device 2", "device 1", "device 5"]);
    assert_eq!(items[0].id, serialize_device_id(&devices[5].id));
    assert_eq!((items[0].total_exchanged_data.as_str(), items[0].completed_transfers), ("2.50 kB", 3));
}

#[test]
fn rows_of_a_list() {
    let mut rows: Rows<u8> = Rows::new();
    assert_eq!(rows.row_count(), 0);
    rows.update(vec![1, 2, 3]);
    rows.update_row(1, 9);
    assert_eq!(rows.row_count(), 3);
    assert_eq!(rows.row_data(1), Some(&9));
    assert_eq!(rows.row_data(3), None);
}
