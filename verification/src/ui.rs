//! What the window shows of what happens.

use crate::code_lookup::{CodeLookupError, ISSUE_COMPLAINT};
use crate::crypto::base64_text;
use crate::devices::{serialize_device_id, Device, DeviceInfo, DeviceStatus};
use crate::format::{decimal_bytes, DecimalBytes};
use crate::messages::{AppEvent, ConnectionOffer, UiResponse, Uuid};
use crate::path_tree::CompressedPathTree;
use crate::protocol::{TransferOffer, TransferOfferRequest};
use crate::transfers::TransferOfferError;
use crate::walker::{WalkController, WalkControllerInner};
use crate::wire::{lossy_text, to_text_lossy};
use vstd::prelude::*;
use vstd::string::StringExecFns;

verus! {

/// What the window does about an event.
#[derive(Debug, Clone, Copy, PartialEq, Eq, Structural)]
pub enum UiAction {
    Nothing,
    ShowTransferOffer,
    ShowConnectionOffer,
    UpdateDevices,
    /// The offer has arrived, and is waiting for its answer.
    WaitForResponse,
}

/// What the window does about an event.
pub open spec fn action_for(event: AppEvent) -> UiAction {
    match event {
        AppEvent::TransferUpdated => UiAction::Nothing,
        AppEvent::IncomingTransferOffer { .. } => UiAction::ShowTransferOffer,
        AppEvent::ConnectionOffer { .. } => UiAction::ShowConnectionOffer,
        AppEvent::FoundNearby => UiAction::UpdateDevices,
        AppEvent::Connected { .. } => UiAction::UpdateDevices,
        AppEvent::TransferOfferDelivered => UiAction::WaitForResponse,
        AppEvent::DeviceWentOffline { .. } => UiAction::UpdateDevices,
    }
}

/// What the window does about an event.
pub fn ui_action(event: &AppEvent) -> (action: UiAction)
    ensures
        action == action_for(*event),
{
    match event {
        AppEvent::TransferUpdated => UiAction::Nothing,
        AppEvent::IncomingTransferOffer { .. } => UiAction::ShowTransferOffer,
        AppEvent::ConnectionOffer { .. } => UiAction::ShowConnectionOffer,
        AppEvent::FoundNearby => UiAction::UpdateDevices,
        AppEvent::Connected { .. } => UiAction::UpdateDevices,
        AppEvent::TransferOfferDelivered => UiAction::WaitForResponse,
        AppEvent::DeviceWentOffline { .. } => UiAction::UpdateDevices,
    }
}

/// The answer to an offer of files, whichever button was pressed: files cannot be
/// accepted from the window yet.
pub fn transfer_offer_answer(accept: bool) -> (answer: UiResponse)
    ensures
        answer matches UiResponse::Reject { reason } && reason matches Some(text) && text@
            == "User rejected the offer."@,
{
    let _ = accept;
    UiResponse::Reject { reason: Some(String::from_str("User rejected the offer.")) }
}

/// The answer to a device that wants to connect.
pub fn connection_offer_answer(accept: bool) -> (answer: UiResponse)
    ensures
        if accept {
            answer is Accept
        } else {
            answer matches UiResponse::Reject { reason } && reason matches Some(text) && text@ == "User rejected."@
        },
{
    if accept {
        UiResponse::Accept
    } else {
        UiResponse::Reject { reason: Some(String::from_str("User rejected.")) }
    }
}

/// What is shown of an offer of files.
#[derive(Debug)]
pub struct IncomingTransferOffer {
    pub from: String,
    pub total_size: String,
    pub transfer_name: String,
    pub total_entries: i32,
}

/// The size that every offer is shown with.
pub const SHOWN_SIZE: u64 = 1500;

/// What is shown of an offer of files.
pub fn shown_offer(offer: &TransferOfferRequest) -> (shown: IncomingTransferOffer)
    ensures
        shown.from@ == offer.sender_name@,
        shown.total_size@ == decimal_bytes(SHOWN_SIZE as nat),
        shown.transfer_name@ == offer.inner.transfer_name@,
        shown.total_entries == offer.inner.entries_num as i32,
{
    IncomingTransferOffer {
        from: offer.sender_name.clone(),
        total_size: DecimalBytes(SHOWN_SIZE).to_string(),
        transfer_name: offer.inner.transfer_name.clone(),
        total_entries: #[verifier::truncate]
        (offer.inner.entries_num as i32),
    }
}

/// The name that is shown of a device that wants to connect.
pub fn shown_name(offer: &ConnectionOffer) -> (name: String)
    ensures
        name@ == offer.username@,
{
    offer.username.to_string()
}

/// Whether the first six bytes of a code can be parted in the middle.
pub open spec fn can_split(code: Seq<u8>) -> bool {
    &&& code.len() >= 6
    &&& vstd::utf8::is_char_boundary(code, 3)
    &&& vstd::utf8::is_char_boundary(code.subrange(3, code.len() as int), 3)
}

/// The first six bytes of a code, parted in the middle.
pub open spec fn split_text(code: Seq<u8>) -> Seq<char> {
    let rest = code.subrange(3, code.len() as int);
    vstd::utf8::decode_utf8(code.subrange(0, 3)).push(' ') + vstd::utf8::decode_utf8(rest.subrange(0, 3))
}

/// A code as it is shown: in two groups of three. Nothing where it is too short.
pub fn split_code(code: &str) -> (shown: Option<String>)
    ensures
        match shown {
            Some(text) => can_split(vstd::utf8::encode_utf8(code@)) && text@ == split_text(
                vstd::utf8::encode_utf8(code@),
            ),
            None => !can_split(vstd::utf8::encode_utf8(code@)),
        },
{
    let ghost bytes = vstd::utf8::encode_utf8(code@);
    if code.as_bytes().len() < 6 || !code.is_char_boundary(3) {
        return None;
    }
    let (first, rest) = code.split_at(3);
    if !rest.is_char_boundary(3) {
        return None;
    }
    let (second, _) = rest.split_at(3);
    proof {
        vstd::utf8::encode_utf8_decode_utf8(first@);
        vstd::utf8::encode_utf8_decode_utf8(second@);
    }
    let mut text = String::from_str(first);
    text.push(' ');
    text.append(second);
    Some(text)
}

/// What is shown while a device is looked for by its code.
#[derive(Debug, Clone, Copy, PartialEq, Eq, Structural)]
pub enum LookupState {
    Checking,
    Connecting,
    Connected,
    Rejected,
    CodeNotFound,
}

/// What a dialog shows: how far it is, or that it failed and begins anew.
#[derive(Debug, Clone, Copy)]
pub enum LookupView {
    State(LookupState),
    Error { title: &'static str, message: &'static str },
}

/// What is shown once the discovery service was asked for a code.
pub fn lookup_view(result: Result<(), CodeLookupError>) -> (view: LookupView)
    ensures
        match result {
            Ok(_) => view == LookupView::State(LookupState::Connecting),
            Err(CodeLookupError::NotFound) => view == LookupView::State(LookupState::CodeNotFound),
            Err(CodeLookupError::NectanService) => view matches LookupView::Error { title, message } && title@
                == "Nectan failed"@ && message@ == "Unexpected error."@,
            Err(CodeLookupError::ConnectionFailed) => view matches LookupView::Error { title, message } && title@
                == "Connection failed"@ && message@ == "Check your connection and try again."@,
        },
{
    match result {
        Ok(_) => LookupView::State(LookupState::Connecting),
        Err(CodeLookupError::NotFound) => LookupView::State(LookupState::CodeNotFound),
        Err(CodeLookupError::NectanService) => LookupView::Error {
            title: "Nectan failed",
            message: "Unexpected error.",
        },
        Err(CodeLookupError::ConnectionFailed) => LookupView::Error {
            title: "Connection failed",
            message: "Check your connection and try again.",
        },
    }
}

/// What is shown once a device that was found by its code was connected to.
pub fn connect_view(connected: bool) -> (state: LookupState)
    ensures
        state == (if connected {
            LookupState::Connected
        } else {
            LookupState::Rejected
        }),
{
    if connected {
        LookupState::Connected
    } else {
        LookupState::Rejected
    }
}

/// What is shown once the discovery service was told to issue a code.
#[derive(Debug)]
pub enum IssueView {
    /// The code, in two groups.
    Code(String),
    /// The code cannot be shown.
    Odd,
    /// There is none, and the dialog is closed.
    Failed { title: &'static str, message: &'static str },
}

/// What is shown of a code that was issued, or of none.
pub fn issue_view(issued: Option<String>) -> (view: IssueView)
    ensures
        match issued {
            Some(code) => if can_split(vstd::utf8::encode_utf8(code@)) {
                view matches IssueView::Code(text) && text@ == split_text(vstd::utf8::encode_utf8(code@))
            } else {
                view is Odd
            },
            None => view matches IssueView::Failed { title, message } && title@ == "Error"@ && message@
                == ISSUE_COMPLAINT@,
        },
{
    match issued {
        Some(code) => match split_code(code.as_str()) {
            Some(text) => IssueView::Code(text),
            None => IssueView::Odd,
        },
        None => IssueView::Failed { title: "Error", message: ISSUE_COMPLAINT },
    }
}

/// How far the sending of an offer is.
#[derive(Debug, Clone, Copy, PartialEq, Eq, Structural)]
pub enum SendModalState {
    Initial,
    WaitingForResponse,
    Accepted,
    Offline,
    Rejected,
    Error,
}

/// What changes in the dialog that sends files.
#[derive(Debug, Clone, Copy)]
pub struct SendView {
    pub state: Option<SendModalState>,
    pub message: Option<&'static str>,
}

/// The message of a view.
pub open spec fn send_message(view: SendView) -> Option<Seq<char>> {
    match view.message {
        Some(text) => Some(text@),
        None => None,
    }
}

/// What is shown of the outcome of an offer.
pub fn send_view(outcome: Result<(), TransferOfferError>) -> (view: SendView)
    ensures
        view.state == (match outcome {
            Ok(_) => Some(SendModalState::Accepted),
            Err(TransferOfferError::DeviceOffline) => Some(SendModalState::Offline),
            Err(TransferOfferError::TransferRejected) => Some(SendModalState::Rejected),
            Err(TransferOfferError::ConnectionFailed) => Some(SendModalState::Error),
            Err(TransferOfferError::InvalidDestination) => Some(SendModalState::Error),
            Err(TransferOfferError::UnexpectedResponse) => None,
        }),
        send_message(view) == (match outcome {
            Err(TransferOfferError::ConnectionFailed) => Some("Connection failed. Device not reachable."@),
            Err(TransferOfferError::InvalidDestination) => Some("Invalid destination. Try restarting Nectan."@),
            Err(TransferOfferError::UnexpectedResponse) => Some("Unexcpected error. Device sent wrong message."@),
            _ => None,
        }),
{
    match outcome {
        Ok(_) => SendView { state: Some(SendModalState::Accepted), message: None },
        Err(TransferOfferError::DeviceOffline) => SendView { state: Some(SendModalState::Offline), message: None },
        Err(TransferOfferError::TransferRejected) => SendView { state: Some(SendModalState::Rejected), message: None },
        Err(TransferOfferError::ConnectionFailed) => SendView {
            state: Some(SendModalState::Error),
            message: Some("Connection failed. Device not reachable."),
        },
        Err(TransferOfferError::InvalidDestination) => SendView {
            state: Some(SendModalState::Error),
            message: Some("Invalid destination. Try restarting Nectan."),
        },
        Err(TransferOfferError::UnexpectedResponse) => SendView {
            state: None,
            message: Some("Unexcpected error. Device sent wrong message."),
        },
    }
}

/// The offer of what a walk has found, under a name. Nothing where the walk has not
/// ended, or found more entries than an offer can count.
pub fn walk_offer(walk: &mut WalkController, transfer_id: Uuid, transfer_name: String) -> (offer: Option<
    TransferOffer<CompressedPathTree>,
>)
    ensures
        match offer {
            Some(o) => {
                &&& old(walk).0.total_entries <= u32::MAX
                &&& old(walk).0.tree == Some(o.tree)
                &&& o.transfer_id == transfer_id
                &&& o.transfer_name == transfer_name
                &&& o.entries_num == old(walk).0.total_entries
                &&& o.total_size == old(walk).0.total_size
                &&& *final(walk) == WalkController(WalkControllerInner { tree: None, ..old(walk).0 })
            },
            None => {
                &&& old(walk).0.total_entries > u32::MAX || old(walk).0.tree is None
                &&& *final(walk) == *old(walk)
            },
        },
{
    let entries = walk.total_entries();
    if entries > 0xFFFF_FFFF {
        return None;
    }
    let total_size = walk.total_size();
    match walk.take_tree() {
        None => None,
        Some(tree) => Some(
            TransferOffer { transfer_name, transfer_id, entries_num: entries as u32, total_size, tree },
        ),
    }
}

/// What is shown of a walk.
#[derive(Debug)]
pub struct WalkView {
    pub total_entries: i32,
    pub total_size: String,
    pub finished: bool,
}

/// What is shown of a walk.
pub fn walk_view(walk: &WalkController) -> (view: WalkView)
    ensures
        view.total_entries == walk.0.total_entries as i32,
        view.total_size@ == decimal_bytes(walk.0.total_size as nat),
        view.finished == walk.0.finished,
{
    let entries = walk.total_entries();
    WalkView {
        total_entries: #[verifier::truncate]
        (entries as i32),
        total_size: DecimalBytes(walk.total_size()).to_string(),
        finished: walk.finished(),
    }
}

/// A line in a view of files.
#[derive(Debug)]
pub struct TreeNode {
    pub depth: i32,
    pub expanded: bool,
    pub is_file: bool,
    pub filename: String,
    pub path: String,
}

/// A path that was selected, as the file dialog gives it.
#[derive(Debug)]
pub struct Selected {
    /// The name of the file or directory.
    pub filename: String,
    /// The path, as it is spelled.
    pub path: Vec<u8>,
    pub is_file: bool,
}

/// Whether a line shows a selected path: with its name, and with the path as it is
/// spelled.
pub open spec fn shows_path(line: TreeNode, selected: Selected) -> bool {
    &&& line.depth == 0
    &&& !line.expanded
    &&& line.is_file == selected.is_file
    &&& line.filename@ == selected.filename@
    &&& line.path@ == lossy_text(selected.path@)
}

/// The lines for the paths that were selected.
pub fn selected_nodes(selected: &[Selected]) -> (lines: Vec<TreeNode>)
    ensures
        lines@.len() == selected@.len(),
        forall|i: int| 0 <= i < lines@.len() ==> shows_path(#[trigger] lines@[i], selected@[i]),
{
    let mut lines: Vec<TreeNode> = Vec::new();
    let mut i: usize = 0;
    while i < selected.len()
        invariant
            i <= selected@.len(),
            lines@.len() == i,
            forall|j: int| 0 <= j < i ==> shows_path(#[trigger] lines@[j], selected@[j]),
        decreases selected@.len() - i,
    {
        lines.push(
            TreeNode {
                depth: 0,
                expanded: false,
                is_file: selected[i].is_file,
                filename: selected[i].filename.clone(),
                path: to_text_lossy(selected[i].path.as_slice()),
            },
        );
        i = i + 1;
    }
    lines
}

/// The dialog that sends files.
#[derive(Debug)]
pub struct SendModal {
    pub transfer_name: String,
    pub walk: WalkView,
    pub state: SendModalState,
    pub open: bool,
    pub nodes: Vec<TreeNode>,
}

/// The dialog as it opens: nothing has been found yet of what was selected.
pub fn opened_modal(transfer_name: String, selected: &[Selected]) -> (modal: SendModal)
    ensures
        modal.transfer_name == transfer_name,
        modal.walk.total_entries == 0,
        modal.walk.total_size@ == "0 B"@,
        !modal.walk.finished,
        modal.state == SendModalState::Initial,
        modal.open,
        modal.nodes@.len() == selected@.len(),
        forall|i: int| 0 <= i < modal.nodes@.len() ==> shows_path(#[trigger] modal.nodes@[i], selected@[i]),
{
    SendModal {
        transfer_name,
        walk: WalkView { total_entries: 0, total_size: String::from_str("0 B"), finished: false },
        state: SendModalState::Initial,
        open: true,
        nodes: selected_nodes(selected),
    }
}

/// What is shown of a device.
pub struct DeviceLine {
    pub id: Seq<char>,
    pub name: Seq<char>,
    pub status: DeviceStatus,
    pub favourite: bool,
    pub total_exchanged_data: Seq<char>,
    pub completed_transfers: i32,
}

/// A line in the list of devices.
#[derive(Debug)]
pub struct DeviceItem {
    pub id: String,
    pub name: String,
    pub status: DeviceStatus,
    pub favourite: bool,
    pub total_exchanged_data: String,
    pub completed_transfers: i32,
}

impl View for DeviceItem {
    type V = DeviceLine;

    open spec fn view(&self) -> DeviceLine {
        DeviceLine {
            id: self.id@,
            name: self.name@,
            status: self.status,
            favourite: self.favourite,
            total_exchanged_data: self.total_exchanged_data@,
            completed_transfers: self.completed_transfers,
        }
    }
}

/// The line that shows a device.
pub open spec fn device_line(device: DeviceInfo) -> DeviceLine {
    DeviceLine {
        id: base64_text(device.id),
        name: device.username,
        status: device.status,
        favourite: device.fav,
        total_exchanged_data: decimal_bytes(device.total_exchanged_data as nat),
        completed_transfers: device.completed_transfers as i32,
    }
}

/// The place of a line: devices nearby come first, then those that are online, and
/// among these the favourites.
pub open spec fn line_rank(status: DeviceStatus, favourite: bool) -> int {
    let by_status: int = match status {
        DeviceStatus::Nearby => 0,
        DeviceStatus::Online => 2,
        DeviceStatus::Offline => 4,
    };
    if favourite {
        by_status
    } else {
        by_status + 1
    }
}

/// Whether lines stand in the order of their places.
pub open spec fn in_rank_order(lines: Seq<DeviceLine>) -> bool {
    forall|i: int, j: int|
        0 <= i < j < lines.len() ==> line_rank((#[trigger] lines[i]).status, lines[i].favourite) <= line_rank(
            (#[trigger] lines[j]).status,
            lines[j].favourite,
        )
}

fn rank_of(item: &DeviceItem) -> (rank: u8)
    ensures
        rank == line_rank(item.status, item.favourite),
{
    let by_status: u8 = match item.status {
        DeviceStatus::Nearby => 0,
        DeviceStatus::Online => 2,
        DeviceStatus::Offline => 4,
    };
    if item.favourite {
        by_status
    } else {
        by_status + 1
    }
}

/// Lines as they are shown.
pub open spec fn lines_of(items: Seq<DeviceItem>) -> Seq<DeviceLine> {
    items.map_values(|item: DeviceItem| item@)
}

/// The lines that show some devices, in no order.
pub open spec fn device_lines(devices: Seq<Device>) -> Seq<DeviceLine> {
    devices.map_values(|device: Device| device_line(device@))
}

/// The list of devices: a line for each, in order.
pub fn device_items(devices: &[Device]) -> (items: Vec<DeviceItem>)
    ensures
        lines_of(items@).to_multiset() == device_lines(devices@).to_multiset(),
        in_rank_order(lines_of(items@)),
{
    let ghost all = device_lines(devices@);
    let mut items: Vec<DeviceItem> = Vec::new();
    let mut i: usize = 0;
    assert(lines_of(items@) =~= all.take(0));
    while i < devices.len()
        invariant
            i <= devices@.len(),
            all == device_lines(devices@),
            lines_of(items@).to_multiset() == all.take(i as int).to_multiset(),
            in_rank_order(lines_of(items@)),
        decreases devices@.len() - i,
    {
        let device = &devices[i];
        let completed = device.completed_transfers;
        let item = DeviceItem {
            id: serialize_device_id(&device.id),
            name: device.username.to_string(),
            status: device.status,
            favourite: device.fav,
            total_exchanged_data: DecimalBytes(device.total_exchanged_data).to_string(),
            completed_transfers: #[verifier::truncate]
            (completed as i32),
        };
        let ghost before = lines_of(items@);
        let ghost line = item@;
        assert(line == all[i as int]);
        let rank = rank_of(&item);
        let mut place: usize = items.len();
        while place > 0 && rank_of(&items[place - 1]) > rank
            invariant
                place <= items@.len(),
                before == lines_of(items@),
                rank == line_rank(line.status, line.favourite),
                forall|j: int|
                    place <= j < before.len() ==> line_rank((#[trigger] before[j]).status, before[j].favourite) > rank,
            decreases place,
        {
            assert(before[place - 1] == items@[place - 1]@);
            place = place - 1;
        }
        proof {
            if place > 0 {
                assert(before[place - 1] == items@[place - 1]@);
            }
        }
        items.insert(place, item);
        proof {
            broadcast use vstd::seq_lib::group_to_multiset_ensures;

            let now = lines_of(items@);
            assert(now =~= before.insert(place as int, line));
            vstd::seq_lib::to_multiset_insert(before, place as int, line);
            assert(all.take(i + 1) =~= all.take(i as int).push(line));
            assert(now.to_multiset() =~= all.take(i + 1).to_multiset());
            assert forall|a: int, b: int| 0 <= a < b < now.len() implies line_rank(
                (#[trigger] now[a]).status,
                now[a].favourite,
            ) <= line_rank((#[trigger] now[b]).status, now[b].favourite) by {
                let x = if a < place { a } else { a - 1 };
                let y = if b < place { b } else { b - 1 };
                if a != place && b != place {
                    assert(now[a] == before[x] && now[b] == before[y]);
                } else if b == place {
                    assert(now[a] == before[a]);
                    assert(line_rank(before[a].status, before[a].favourite) <= line_rank(
                        before[place - 1].status,
                        before[place - 1].favourite,
                    ));
                } else {
                    assert(now[b] == before[y]);
                }
            }
        }
        i = i + 1;
    }
    assert(all.take(i as int) =~= all);
    items
}

/// The rows of a list in the window.
#[derive(Debug)]
pub struct Rows<T> {
    rows: Vec<T>,
}

impl<T> View for Rows<T> {
    type V = Seq<T>;

    closed spec fn view(&self) -> Seq<T> {
        self.rows@
    }
}

impl<T> Rows<T> {
    /// No rows.
    pub fn new() -> (rows: Rows<T>)
        ensures
            rows@ == Seq::<T>::empty(),
    {
        Rows { rows: Vec::new() }
    }

    /// Replaces all rows.
    pub fn update(&mut self, rows: Vec<T>)
        ensures
            final(self)@ == rows@,
    {
        self.rows = rows;
    }

    /// Replaces one row.
    pub fn update_row(&mut self, row: usize, value: T)
        requires
            row < old(self)@.len(),
        ensures
            final(self)@ == old(self)@.update(row as int, value),
    {
        self.rows[row] = value;
    }

    /// The number of rows.
    pub fn row_count(&self) -> (n: usize)
        ensures
            n == self@.len(),
    {
        self.rows.len()
    }

    /// A row, where there is one.
    pub fn row_data(&self, row: usize) -> (value: Option<&T>)
        ensures
            match value {
                Some(v) => row < self@.len() && *v == self@[row as int],
                None => row >= self@.len(),
            },
    {
        if row < self.rows.len() {
            Some(&self.rows[row])
        } else {
            None
        }
    }
}

/// Devices nearby come before those that are online, and these before those that are
/// offline; among devices of one kind the favourites come first.
pub proof fn law_order_of_devices(a: bool, b: bool, status: DeviceStatus)
    ensures
        line_rank(DeviceStatus::Nearby, a) < line_rank(DeviceStatus::Online, b),
        line_rank(DeviceStatus::Online, a) < line_rank(DeviceStatus::Offline, b),
        line_rank(DeviceStatus::Nearby, a) < line_rank(DeviceStatus::Offline, b),
        line_rank(status, true) < line_rank(status, false),
{
}

/// In a list of devices none that is nearby stands behind one that is not, none that is
/// online behind one that is offline, and no favourite behind another device of its kind.
pub proof fn law_list_in_order(lines: Seq<DeviceLine>, i: int, j: int)
    requires
        in_rank_order(lines),
        0 <= i < j < lines.len(),
    ensures
        lines[j].status == DeviceStatus::Nearby ==> lines[i].status == DeviceStatus::Nearby,
        lines[j].status == DeviceStatus::Online ==> lines[i].status != DeviceStatus::Offline,
        lines[i].status == lines[j].status && lines[j].favourite ==> lines[i].favourite,
{
    assert(line_rank(lines[i].status, lines[i].favourite) <= line_rank(lines[j].status, lines[j].favourite));
}

/// The line of a device shows its key in base64, its name, how it is reached, whether it is
/// a favourite, how much was exchanged with it and in how many transfers.
pub proof fn law_device_line(device: Device)
    ensures
        device_line(device@).id == base64_text(device.id@),
        device_line(device@).name == device.username@,
        device_line(device@).status == device.status,
        device_line(device@).favourite == device.fav,
        device_line(device@).total_exchanged_data == decimal_bytes(device.total_exchanged_data as nat),
        device.completed_transfers <= i32::MAX ==> device_line(device@).completed_transfers
            == device.completed_transfers,
{
}

/// Each device has its line, and each line that is shown is what it holds.
pub proof fn law_lines(devices: Seq<Device>, items: Seq<DeviceItem>, i: int)
    ensures
        device_lines(devices).len() == devices.len(),
        0 <= i < devices.len() ==> device_lines(devices)[i] == device_line(devices[i]@),
        lines_of(items).len() == items.len(),
        0 <= i < items.len() ==> {
            let line = lines_of(items)[i];
            &&& line.id == items[i].id@
            &&& line.name == items[i].name@
            &&& line.status == items[i].status
            &&& line.favourite == items[i].favourite
            &&& line.total_exchanged_data == items[i].total_exchanged_data@
            &&& line.completed_transfers == items[i].completed_transfers
        },
{
}

/// The line of a path that was selected shows its name, and the path as it is spelled; it
/// stands at the top, and is not opened.
pub proof fn law_selected_line(line: TreeNode, selected: Selected)
    requires
        shows_path(line, selected),
    ensures
        line.filename@ == selected.filename@,
        vstd::utf8::valid_utf8(selected.path@) ==> line.path@ == vstd::utf8::decode_utf8(selected.path@),
        line.is_file == selected.is_file,
        line.depth == 0,
        !line.expanded,
{
}

/// What the window does about an event: it shows what the user has to answer, brings the
/// list of devices up to date where one came or went, waits where an offer has arrived, and
/// does nothing else.
pub proof fn law_events_are_shown(event: AppEvent)
    ensures
        event is IncomingTransferOffer <==> action_for(event) == UiAction::ShowTransferOffer,
        event is ConnectionOffer <==> action_for(event) == UiAction::ShowConnectionOffer,
        event is FoundNearby || event is Connected || event is DeviceWentOffline <==> action_for(event)
            == UiAction::UpdateDevices,
        event is TransferOfferDelivered <==> action_for(event) == UiAction::WaitForResponse,
        event is TransferUpdated <==> action_for(event) == UiAction::Nothing,
{
}

/// A code of at least six plain characters is shown as the first three of them, a space and
/// the next three; a shorter one is not shown.
pub proof fn law_code_in_two_groups(code: Seq<char>)
    requires
        vstd::utf8::is_ascii_chars(code),
    ensures
        can_split(vstd::utf8::encode_utf8(code)) <==> code.len() >= 6,
        code.len() >= 6 ==> split_text(vstd::utf8::encode_utf8(code)) == code.subrange(0, 3) + seq![' '] + code.subrange(
            3,
            6,
        ),
{
    let bytes = vstd::utf8::encode_utf8(code);
    vstd::utf8::is_ascii_chars_encode_utf8(code);
    if code.len() >= 6 {
        let (a, rest) = (code.subrange(0, 3), code.subrange(3, code.len() as int));
        let (b, c) = (rest.subrange(0, 3), rest.subrange(3, rest.len() as int));
        assert(a + rest =~= code);
        assert(b + c =~= rest);
        crate::text::lemma_encode_concat(a, rest);
        crate::text::lemma_encode_concat(b, c);
        assert(vstd::utf8::is_ascii_chars(a) && vstd::utf8::is_ascii_chars(b) && vstd::utf8::is_ascii_chars(rest));
        vstd::utf8::is_ascii_chars_encode_utf8(a);
        vstd::utf8::is_ascii_chars_encode_utf8(b);
        vstd::utf8::is_ascii_chars_encode_utf8(rest);
        let behind = bytes.subrange(3, bytes.len() as int);
        assert(bytes.subrange(0, 3) =~= vstd::utf8::encode_utf8(a));
        assert(behind =~= vstd::utf8::encode_utf8(rest));
        assert(behind.subrange(0, 3) =~= vstd::utf8::encode_utf8(b));
        vstd::utf8::encode_utf8_decode_utf8(a);
        vstd::utf8::encode_utf8_decode_utf8(b);
        vstd::utf8::encode_utf8_valid_utf8(code);
        vstd::utf8::encode_utf8_valid_utf8(rest);
        lemma_plain_boundary(code, 3);
        lemma_plain_boundary(rest, 3);
        assert(code.subrange(3, 6) =~= b);
        assert(split_text(bytes) =~= a + seq![' '] + b);
    }
}

proof fn lemma_plain_boundary(text: Seq<char>, index: int)
    requires
        vstd::utf8::is_ascii_chars(text),
        0 <= index <= text.len(),
    ensures
        vstd::utf8::is_char_boundary(vstd::utf8::encode_utf8(text), index),
    decreases text.len(),
{
    let bytes = vstd::utf8::encode_utf8(text);
    vstd::utf8::is_ascii_chars_encode_utf8(text);
    vstd::utf8::encode_utf8_valid_utf8(text);
    if index == text.len() {
        vstd::utf8::is_char_boundary_start_end_of_seq(bytes);
    } else {
        assert(text[index] as u8 == bytes[index]);
        assert('\0' <= text[index] <= '\u{7f}');
        vstd::utf8::is_char_boundary_iff_not_is_continuation_byte(bytes, index);
    }
}

} // verus!
