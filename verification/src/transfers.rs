//! Transfers that are under way, and their items.

use crate::assoc::{has_key, keys_unique, lemma_map_of, lemma_map_push, lemma_map_remove, lemma_map_update, map_of};
use crate::devices::{DeviceId, DevicesPool};
use crate::messages::{frame, NetMessage, StreamableMessage, Uuid};
use crate::path::{
    components, is_below, joined, law_components_of_render, law_relative_leads_back, relative_to, render, root_name,
    well_formed, TreePath,
};
use crate::path_tree::PathTree;
use crate::protocol::TransferOffer;
use crate::queue::{next_batch, with_taken, ItemQueue};
use crate::tree_laws::{law_ids_cover, lemma_rows_well_formed};
use crate::tree_model::{ids_unique, named, row_of, rows, spine, Node, Row};
use crate::wire::{
    bool_bytes, encode_bool, encode_text, encode_u32, encode_u64, law_bool_read_back, law_text_read_back,
    law_u32_read_back, law_u64_read_back, push_all, read_bool, read_text, read_u32, read_u64, take_bool, take_text, take_u32,
    take_u64, text_bytes, varint,
};
use vstd::prelude::*;
use vstd::string::StringExecFns;

verus! {

/// Why an item was not transferred.
#[derive(Debug, Clone, Copy, PartialEq, Eq, Structural)]
pub enum TransferItemError {
    FileIOError,
    FileAlreadyExisted,
    FileOpenPermissionDenied,
    FileNotFound,
    StreamError,
    OpenFail,
    Terminated,
}

/// Why an offer came to nothing.
#[derive(Debug, Clone, Copy, PartialEq, Eq, Structural)]
pub enum TransferOfferError {
    DeviceOffline,
    InvalidDestination,
    TransferRejected,
    UnexpectedResponse,
    ConnectionFailed,
}

/// The name of an error about an offer.
pub open spec fn offer_error_name(error: TransferOfferError) -> Seq<char> {
    match error {
        TransferOfferError::DeviceOffline => "DeviceOffline"@,
        TransferOfferError::InvalidDestination => "InvalidDestination"@,
        TransferOfferError::TransferRejected => "TransferRejected"@,
        TransferOfferError::UnexpectedResponse => "UnexpectedResponse"@,
        TransferOfferError::ConnectionFailed => "ConnectionFailed"@,
    }
}

impl TransferOfferError {
    /// The name of the error.
    pub fn to_string(&self) -> (text: String)
        ensures
            text@ == offer_error_name(*self),
    {
        match self {
            TransferOfferError::DeviceOffline => String::from_str("DeviceOffline"),
            TransferOfferError::InvalidDestination => String::from_str("InvalidDestination"),
            TransferOfferError::TransferRejected => String::from_str("TransferRejected"),
            TransferOfferError::UnexpectedResponse => String::from_str("UnexpectedResponse"),
            TransferOfferError::ConnectionFailed => String::from_str("ConnectionFailed"),
        }
    }
}

/// Whether files are sent or received.
#[derive(Debug, Clone, Copy, PartialEq, Eq, Structural)]
pub enum TransferDirection {
    Outcoming,
    Incoming,
}

/// What an item is.
pub struct Item {
    pub id: u32,
    pub size: u64,
    pub sent_bytes: u64,
    pub is_file: bool,
    pub path: Seq<Seq<u8>>,
    pub err: Option<TransferItemError>,
}

/// One file or directory of a transfer.
#[derive(Debug)]
pub struct TransferItem {
    pub id: u32,
    pub size: u64,
    pub sent_bytes: u64,
    pub is_file: bool,
    /// The path, seen from the root of the transfer.
    pub path: TreePath,
    pub err: Option<TransferItemError>,
}

impl View for TransferItem {
    type V = Item;

    open spec fn view(&self) -> Item {
        Item {
            id: self.id,
            size: self.size,
            sent_bytes: self.sent_bytes,
            is_file: self.is_file,
            path: self.path@,
            err: self.err,
        }
    }
}

impl Clone for TransferItem {
    fn clone(&self) -> (copy: TransferItem)
        ensures
            copy@ == self@,
    {
        TransferItem {
            id: self.id,
            size: self.size,
            sent_bytes: self.sent_bytes,
            is_file: self.is_file,
            path: self.path.clone(),
            err: self.err,
        }
    }
}

/// The number of an error on the wire.
pub open spec fn error_number(error: TransferItemError) -> nat {
    match error {
        TransferItemError::FileIOError => 0,
        TransferItemError::FileAlreadyExisted => 1,
        TransferItemError::FileOpenPermissionDenied => 2,
        TransferItemError::FileNotFound => 3,
        TransferItemError::StreamError => 4,
        TransferItemError::OpenFail => 5,
        TransferItemError::Terminated => 6,
    }
}

/// The error with a number, where there is one.
pub open spec fn error_numbered(n: nat) -> Option<TransferItemError> {
    if n == 0 {
        Some(TransferItemError::FileIOError)
    } else if n == 1 {
        Some(TransferItemError::FileAlreadyExisted)
    } else if n == 2 {
        Some(TransferItemError::FileOpenPermissionDenied)
    } else if n == 3 {
        Some(TransferItemError::FileNotFound)
    } else if n == 4 {
        Some(TransferItemError::StreamError)
    } else if n == 5 {
        Some(TransferItemError::OpenFail)
    } else if n == 6 {
        Some(TransferItemError::Terminated)
    } else {
        None
    }
}

impl TransferItemError {
    /// Whether an item that failed like this is not tried again.
    pub fn is_final(self) -> (finally: bool)
        ensures
            finally == is_final(self),
            finally == (self == TransferItemError::FileOpenPermissionDenied || self == TransferItemError::OpenFail
                || self == TransferItemError::FileAlreadyExisted || self == TransferItemError::FileNotFound || self
                == TransferItemError::FileIOError),
    {
        match self {
            TransferItemError::StreamError | TransferItemError::Terminated => false,
            _ => true,
        }
    }

    fn number(self) -> (n: u32)
        ensures
            n == error_number(self),
    {
        match self {
            TransferItemError::FileIOError => 0,
            TransferItemError::FileAlreadyExisted => 1,
            TransferItemError::FileOpenPermissionDenied => 2,
            TransferItemError::FileNotFound => 3,
            TransferItemError::StreamError => 4,
            TransferItemError::OpenFail => 5,
            TransferItemError::Terminated => 6,
        }
    }

    fn numbered(n: u32) -> (error: Option<TransferItemError>)
        ensures
            error == error_numbered(n as nat),
    {
        if n == 0 {
            Some(TransferItemError::FileIOError)
        } else if n == 1 {
            Some(TransferItemError::FileAlreadyExisted)
        } else if n == 2 {
            Some(TransferItemError::FileOpenPermissionDenied)
        } else if n == 3 {
            Some(TransferItemError::FileNotFound)
        } else if n == 4 {
            Some(TransferItemError::StreamError)
        } else if n == 5 {
            Some(TransferItemError::OpenFail)
        } else if n == 6 {
            Some(TransferItemError::Terminated)
        } else {
            None
        }
    }
}

/// The text of a path, where it is UTF-8.
pub open spec fn path_text(parts: Seq<Seq<u8>>) -> Option<Seq<char>> {
    if vstd::utf8::valid_utf8(render(parts)) {
        Some(vstd::utf8::decode_utf8(render(parts)))
    } else {
        None
    }
}

/// The bytes of what an item and its header begin with.
pub open spec fn head_bytes(id: u32, size: u64, sent_bytes: u64, is_file: bool, path: Seq<char>) -> Seq<u8> {
    varint(id as nat) + varint(size as nat) + varint(sent_bytes as nat) + bool_bytes(is_file) + text_bytes(path)
}

/// The bytes of an error that may be there.
pub open spec fn error_bytes(err: Option<TransferItemError>) -> Seq<u8> {
    match err {
        Some(e) => bool_bytes(true) + varint(error_number(e)),
        None => bool_bytes(false),
    }
}

/// The bytes of an item. One whose path is not UTF-8 has none.
pub open spec fn item_bytes(item: Item) -> Option<Seq<u8>> {
    match path_text(item.path) {
        Some(text) => Some(head_bytes(item.id, item.size, item.sent_bytes, item.is_file, text) + error_bytes(item.err)),
        None => None,
    }
}

/// Reads what an item and its header begin with, and gives the bytes that follow.
pub open spec fn read_head(bytes: Seq<u8>) -> Option<(Item, Seq<u8>)> {
    match read_u32(bytes) {
        None => None,
        Some((id, a)) => {
            let behind_id = bytes.skip(a as int);
            match read_u64(behind_id) {
                None => None,
                Some((size, b)) => {
                    let behind_size = behind_id.skip(b as int);
                    match read_u64(behind_size) {
                        None => None,
                        Some((sent_bytes, c)) => {
                            let behind_sent = behind_size.skip(c as int);
                            match read_bool(behind_sent) {
                                None => None,
                                Some((is_file, d)) => {
                                    let behind_flag = behind_sent.skip(d as int);
                                    match read_text(behind_flag) {
                                        None => None,
                                        Some((path, e)) => Some(
                                            (
                                                Item {
                                                    id: id as u32,
                                                    size: size as u64,
                                                    sent_bytes: sent_bytes as u64,
                                                    is_file,
                                                    path: components(vstd::utf8::encode_utf8(path)),
                                                    err: None,
                                                },
                                                behind_flag.skip(e as int),
                                            ),
                                        ),
                                    }
                                },
                            }
                        },
                    }
                },
            }
        },
    }
}

/// Reads an error that may be there.
pub open spec fn read_error(bytes: Seq<u8>) -> Option<Option<TransferItemError>> {
    match read_bool(bytes) {
        None => None,
        Some((there, used)) => if !there {
            Some(None)
        } else {
            match read_u32(bytes.skip(used as int)) {
                None => None,
                Some((n, more)) => match error_numbered(n) {
                    None => None,
                    Some(e) => Some(Some(e)),
                },
            }
        },
    }
}

/// Reads an item. Bytes behind it are of no concern.
pub open spec fn read_item(bytes: Seq<u8>) -> Option<Item> {
    match read_head(bytes) {
        None => None,
        Some((item, rest)) => match read_error(rest) {
            None => None,
            Some(err) => Some(Item { err, ..item }),
        },
    }
}

proof fn lemma_head_back(item: Item, text: Seq<char>, rest: Seq<u8>)
    requires
        well_formed(item.path),
        path_text(item.path) == Some(text),
        text_bytes(text).len() <= usize::MAX,
    ensures
        read_head(head_bytes(item.id, item.size, item.sent_bytes, item.is_file, text) + rest) == Some(
            (Item { err: None, ..item }, rest),
        ),
{
    let bytes = head_bytes(item.id, item.size, item.sent_bytes, item.is_file, text) + rest;
    let e = text_bytes(text) + rest;
    let d = bool_bytes(item.is_file) + e;
    let c = varint(item.sent_bytes as nat) + d;
    let b = varint(item.size as nat) + c;
    assert(bytes =~= varint(item.id as nat) + b);
    law_u32_read_back(item.id as nat, b);
    assert(bytes.skip(varint(item.id as nat).len() as int) =~= b);
    law_u64_read_back(item.size as nat, c);
    assert(b.skip(varint(item.size as nat).len() as int) =~= c);
    law_u64_read_back(item.sent_bytes as nat, d);
    assert(c.skip(varint(item.sent_bytes as nat).len() as int) =~= d);
    law_bool_read_back(item.is_file, e);
    assert(d.skip(1) =~= e);
    law_text_read_back(text, rest);
    assert(e.skip(text_bytes(text).len() as int) =~= rest);
    vstd::utf8::decode_utf8_encode_utf8(render(item.path));
    law_components_of_render(item.path);
}

/// What is read of the bytes of an item is that item.
pub proof fn law_item_read_back(item: Item, rest: Seq<u8>)
    requires
        well_formed(item.path),
        item_bytes(item) is Some,
        item_bytes(item)->0.len() <= usize::MAX,
    ensures
        read_item(item_bytes(item)->0 + rest) == Some(item),
{
    let text = path_text(item.path)->0;
    let bytes = item_bytes(item)->0 + rest;
    let behind = error_bytes(item.err) + rest;
    assert(bytes =~= head_bytes(item.id, item.size, item.sent_bytes, item.is_file, text) + behind);
    lemma_head_back(item, text, behind);
    match item.err {
        None => {
            law_bool_read_back(false, rest);
        },
        Some(e) => {
            let number = varint(error_number(e)) + rest;
            assert(behind =~= bool_bytes(true) + number);
            law_bool_read_back(true, number);
            assert(behind.skip(1) =~= number);
            law_u32_read_back(error_number(e), rest);
        },
    }
}

/// `String::from_utf8`: the text that bytes encode, where they are UTF-8.
#[verifier::external_body]
fn to_text(bytes: Vec<u8>) -> (text: Option<String>)
    ensures
        match text {
            Some(t) => vstd::utf8::valid_utf8(bytes@) && t@ == vstd::utf8::decode_utf8(bytes@),
            None => !vstd::utf8::valid_utf8(bytes@),
        },
{
    String::from_utf8(bytes).ok()
}

fn head_to_bytes(id: u32, size: u64, sent_bytes: u64, is_file: bool, path: &TreePath) -> (bytes: Option<Vec<u8>>)
    ensures
        match bytes {
            Some(b) => path_text(path@) matches Some(text) && b@ == head_bytes(id, size, sent_bytes, is_file, text),
            None => path_text(path@) is None,
        },
{
    let text = match to_text(path.to_bytes()) {
        Some(text) => text,
        None => {
            return None;
        },
    };
    let mut bytes: Vec<u8> = Vec::new();
    push_all(&mut bytes, encode_u32(id));
    push_all(&mut bytes, encode_u64(size));
    push_all(&mut bytes, encode_u64(sent_bytes));
    push_all(&mut bytes, encode_bool(is_file));
    push_all(&mut bytes, encode_text(text.as_str()));
    assert(bytes@ =~= head_bytes(id, size, sent_bytes, is_file, text@));
    Some(bytes)
}

fn take_head(bytes: &[u8]) -> (taken: Option<(TransferItem, &[u8])>)
    ensures
        match read_head(bytes@) {
            Some((item, rest)) => taken matches Some((t, left)) && t@ == item && left@ == rest && well_formed(t.path@),
            None => taken is None,
        },
{
    let (id, rest) = match take_u32(bytes) {
        Some(taken) => taken,
        None => {
            return None;
        },
    };
    let (size, rest) = match take_u64(rest) {
        Some(taken) => taken,
        None => {
            return None;
        },
    };
    let (sent_bytes, rest) = match take_u64(rest) {
        Some(taken) => taken,
        None => {
            return None;
        },
    };
    let (is_file, rest) = match take_bool(rest) {
        Some(taken) => taken,
        None => {
            return None;
        },
    };
    let (text, rest) = match take_text(rest) {
        Some(taken) => taken,
        None => {
            return None;
        },
    };
    let path = TreePath::from_text(text.as_str());
    Some((TransferItem { id, size, sent_bytes, is_file, path, err: None }, rest))
}

impl TransferItem {
    /// The bytes that the item is kept as, where its path is UTF-8.
    pub fn as_bytes(&self) -> (bytes: Option<Vec<u8>>)
        ensures
            match bytes {
                Some(b) => item_bytes(self@) == Some(b@) && (well_formed(self.path@) ==> read_item(b@) == Some(self@)),
                None => item_bytes(self@) is None,
            },
    {
        let mut bytes = match head_to_bytes(self.id, self.size, self.sent_bytes, self.is_file, &self.path) {
            Some(bytes) => bytes,
            None => {
                return None;
            },
        };
        let ghost head = bytes@;
        match self.err {
            None => {
                push_all(&mut bytes, encode_bool(false));
            },
            Some(e) => {
                push_all(&mut bytes, encode_bool(true));
                push_all(&mut bytes, encode_u32(e.number()));
            },
        }
        assert(bytes@ =~= head + error_bytes(self.err));
        let length: usize = bytes.len();
        proof {
            if well_formed(self.path@) {
                assert(item_bytes(self@)->0.len() == length);
                law_item_read_back(self@, Seq::empty());
                assert(bytes@ + Seq::<u8>::empty() =~= bytes@);
            }
        }
        Some(bytes)
    }

    /// The item that bytes hold, where they hold one.
    pub fn from_bytes(data: &[u8]) -> (item: Option<TransferItem>)
        ensures
            match item {
                Some(i) => read_item(data@) == Some(i@) && well_formed(i.path@),
                None => read_item(data@) is None,
            },
    {
        let (mut item, rest) = match take_head(data) {
            Some(taken) => taken,
            None => {
                return None;
            },
        };
        let (there, rest) = match take_bool(rest) {
            Some(taken) => taken,
            None => {
                return None;
            },
        };
        if there {
            let (n, _) = match take_u32(rest) {
                Some(taken) => taken,
                None => {
                    return None;
                },
            };
            match TransferItemError::numbered(n) {
                Some(e) => {
                    item.err = Some(e);
                },
                None => {
                    return None;
                },
            }
        }
        Some(item)
    }
}

/// What is sent before the contents of an item.
#[derive(Debug)]
pub struct TransferItemHeader {
    pub id: u32,
    pub file_size: u64,
    pub sent_bytes: u64,
    pub is_file: bool,
    pub path: TreePath,
}

/// A header as an item of which nothing went wrong.
pub open spec fn header_item(header: TransferItemHeader) -> Item {
    Item {
        id: header.id,
        size: header.file_size,
        sent_bytes: header.sent_bytes,
        is_file: header.is_file,
        path: header.path@,
        err: None,
    }
}

impl TransferItemHeader {
    /// The header of an item.
    pub fn of_item(item: &TransferItem) -> (header: TransferItemHeader)
        ensures
            header_item(header) == (Item { err: None, ..item@ }),
            header.id == item.id,
            header.file_size == item.size,
            header.sent_bytes == item.sent_bytes,
            header.is_file == item.is_file,
            header.path@ == item.path@,
    {
        TransferItemHeader {
            id: item.id,
            file_size: item.size,
            sent_bytes: item.sent_bytes,
            is_file: item.is_file,
            path: item.path.clone(),
        }
    }

    /// The bytes of the header, where its path is UTF-8.
    pub fn to_bytes(&self) -> (bytes: Option<Vec<u8>>)
        ensures
            match bytes {
                Some(b) => path_text(self.path@) matches Some(text) && b@ == head_bytes(
                    self.id,
                    self.file_size,
                    self.sent_bytes,
                    self.is_file,
                    text,
                ) && (well_formed(self.path@) ==> read_head(b@) == Some((header_item(*self), Seq::<u8>::empty()))),
                None => path_text(self.path@) is None,
            },
    {
        let bytes = head_to_bytes(self.id, self.file_size, self.sent_bytes, self.is_file, &self.path);
        match &bytes {
            Some(b) => {
                let length: usize = b.len();
                proof {
                    if well_formed(self.path@) {
                        let text = path_text(self.path@)->0;
                        assert(text_bytes(text).len() <= length);
                        lemma_head_back(header_item(*self), text, Seq::empty());
                        assert(b@ + Seq::<u8>::empty() =~= b@);
                    }
                }
            },
            None => {},
        }
        bytes
    }

    /// The header that bytes hold, where they hold one.
    pub fn from_bytes(bytes: &[u8]) -> (header: Option<TransferItemHeader>)
        ensures
            match header {
                Some(h) => read_head(bytes@) matches Some((item, rest)) && item == header_item(h) && well_formed(h.path@),
                None => read_head(bytes@) is None,
            },
    {
        match take_head(bytes) {
            None => None,
            Some((item, _)) => Some(
                TransferItemHeader {
                    id: item.id,
                    file_size: item.size,
                    sent_bytes: item.sent_bytes,
                    is_file: item.is_file,
                    path: item.path,
                },
            ),
        }
    }
}

impl View for TransferItemHeader {
    type V = Item;

    open spec fn view(&self) -> Item {
        header_item(*self)
    }
}

impl StreamableMessage for TransferItemHeader {
    open spec fn sendable(&self) -> bool {
        well_formed(self.path@) && path_text(self.path@) is Some
    }

    open spec fn payload(&self) -> Seq<u8> {
        head_bytes(self.id, self.file_size, self.sent_bytes, self.is_file, path_text(self.path@)->0)
    }

    open spec fn parsed(payload: Seq<u8>) -> Option<Item> {
        match read_head(payload) {
            Some((item, rest)) => Some(item),
            None => None,
        }
    }

    proof fn law_payload_read_back(&self) {
        let text = path_text(self.path@)->0;
        assert(text_bytes(text).len() <= self.payload().len());
        lemma_head_back(self@, text, Seq::empty());
        assert(self.payload() + Seq::<u8>::empty() =~= self.payload());
    }

    fn read(payload: &[u8]) -> (header: Option<TransferItemHeader>) {
        TransferItemHeader::from_bytes(payload)
    }

    fn write(&self) -> (bytes: Option<Vec<u8>>)
        ensures
            bytes is Some == path_text(self.path@) is Some,
    {
        match self.to_bytes() {
            Some(bytes) => Some(frame(bytes.as_slice())),
            None => None,
        }
    }
}

/// The item that a line of a listing becomes in a transfer of what is below `root`:
/// its path is seen from there. A line that is not below `root` keeps its path.
pub open spec fn row_item(root: Seq<Seq<u8>>, row: Row) -> Item {
    Item {
        id: row.info.id,
        size: row.info.size,
        sent_bytes: 0,
        is_file: row.info.is_file,
        path: relative_to(row.path, root),
        err: None,
    }
}

/// The items that the lines of a listing become.
pub open spec fn tree_items(node: Node) -> Seq<Item> {
    let root = spine(node, Seq::empty());
    rows(node).map_values(|row: Row| row_item(root, row))
}

/// Each line of a tree's listing becomes one item: with the line's number and size, a file
/// where the line is one, of which nothing has been sent and nothing has gone wrong.
pub proof fn law_items_begin_unsent(node: Node)
    ensures
        tree_items(node).len() == rows(node).len(),
        forall|i: int|
            0 <= i < rows(node).len() ==> {
                let item = #[trigger] tree_items(node)[i];
                &&& item.sent_bytes == 0
                &&& item.err is None
                &&& item.is_file == rows(node)[i].info.is_file
                &&& item.size == rows(node)[i].info.size
                &&& item.id == rows(node)[i].info.id
            },
{
}

/// Whether items are those of a tree's listing, line by line, with nothing sent yet and
/// nothing gone wrong.
pub open spec fn items_unsent(node: Node, items: Seq<TransferItem>) -> bool {
    &&& items.len() == rows(node).len()
    &&& forall|i: int|
        0 <= i < items.len() ==> {
            &&& (#[trigger] items[i]).sent_bytes == 0
            &&& items[i].err is None
            &&& items[i].is_file == rows(node)[i].info.is_file
            &&& items[i].size == rows(node)[i].info.size
            &&& items[i].id == rows(node)[i].info.id
        }
}

/// Whether some items have one with a number.
pub open spec fn has_item(items: Seq<TransferItem>, number: u32) -> bool {
    exists|i: int| 0 <= i < items.len() && (#[trigger] items[i]).id == number
}

/// The root of a transfer: of one that goes out the common parent of all that is sent,
/// of one that comes in the directory that it goes to.
pub open spec fn transfer_root(direction: TransferDirection, node: Node, receive_dir: Seq<Seq<u8>>) -> Seq<Seq<u8>> {
    match direction {
        TransferDirection::Outcoming => spine(node, Seq::empty()),
        TransferDirection::Incoming => receive_dir,
    }
}

/// Whether the path of each item that stands below the common parent leads there from
/// the common parent, and does not begin at the root.
pub open spec fn items_lead_back(node: Node, items: Seq<TransferItem>) -> bool {
    let root = spine(node, Seq::empty());
    forall|i: int|
        0 <= i < rows(node).len() && is_below((#[trigger] rows(node)[i]).path, root) ==> {
            &&& joined(root, items[i].path@) == rows(node)[i].path
            &&& root.len() > 0 ==> items[i].path@[0] != root_name()
        }
}

proof fn lemma_items_lead_back(node: Node, items: Seq<TransferItem>)
    requires
        named(node),
        items.map_values(|item: TransferItem| item@) == tree_items(node),
    ensures
        items_lead_back(node, items),
{
    let root = spine(node, Seq::empty());
    let shown = items.map_values(|item: TransferItem| item@);
    lemma_rows_well_formed(node.children, node, Seq::empty());
    assert forall|i: int| 0 <= i < rows(node).len() && is_below((#[trigger] rows(node)[i]).path, root) implies {
        &&& joined(root, items[i].path@) == rows(node)[i].path
        &&& root.len() > 0 ==> items[i].path@[0] != root_name()
    } by {
        assert(shown.len() == rows(node).len() && shown.len() == items.len());
        assert(shown[i] == items[i]@);
        assert(tree_items(node)[i] == row_item(root, rows(node)[i]));
        law_relative_leads_back(rows(node)[i].path, root);
    }
}

/// A transfer that is under way.
#[derive(Debug)]
pub struct PendingTransfer {
    pub id: Uuid,
    pub target: DeviceId,
    pub direction: TransferDirection,
    pub items_queue: ItemQueue,
    pub failed: u32,
    pub total_items: u32,
    pub processed: u32,
    /// When sending, the common parent of all items; when receiving, the directory
    /// that they go to.
    pub root_path: TreePath,
    pub cancelled: bool,
}

/// How many items are left once some have been processed.
pub open spec fn items_left(total: u32, processed: u32) -> u32 {
    if processed <= total {
        (total - processed) as u32
    } else {
        0
    }
}

/// A count that goes up by one; behind the largest comes zero.
pub open spec fn one_more(n: u32) -> u32 {
    if n == u32::MAX {
        0
    } else {
        (n + 1) as u32
    }
}

/// Whether an item that failed like this is not tried again.
pub open spec fn is_final(e: TransferItemError) -> bool {
    e != TransferItemError::StreamError && e != TransferItemError::Terminated
}

/// An item that cannot be opened, is there already, is not found or cannot be read or
/// written has failed for good. One whose stream broke or that was stopped is tried again.
pub proof fn law_failures_for_good(e: TransferItemError)
    ensures
        is_final(e) <==> (e == TransferItemError::FileOpenPermissionDenied || e == TransferItemError::OpenFail || e
            == TransferItemError::FileAlreadyExisted || e == TransferItemError::FileNotFound || e
            == TransferItemError::FileIOError),
        !is_final(e) <==> (e == TransferItemError::StreamError || e == TransferItemError::Terminated),
        settles(Err(e)) == is_final(e),
        settles(Ok(())),
{
}

/// A count goes up by one as long as 32 bits can hold it, and what is left of a transfer
/// goes down with it.
pub proof fn law_counts_go_up(total: u32, processed: u32)
    ensures
        processed < 0xffff_ffff ==> one_more(processed) == processed + 1,
        processed <= total ==> items_left(total, processed) == total - processed,
        processed >= total ==> items_left(total, processed) == 0,
        processed < total ==> items_left(total, one_more(processed)) + 1 == items_left(total, processed),
{
}

/// Whether a transfer has counted an item that came to nothing for good, or done nothing
/// about one that is tried again.
pub open spec fn counts_failure(before: PendingTransfer, after: PendingTransfer, e: TransferItemError) -> bool {
    match e {
        TransferItemError::FileOpenPermissionDenied
        | TransferItemError::OpenFail
        | TransferItemError::FileAlreadyExisted
        | TransferItemError::FileNotFound
        | TransferItemError::FileIOError => {
            &&& before.failed < 0xffff_ffff ==> after.failed == before.failed + 1
            &&& before.processed < 0xffff_ffff ==> after.processed == before.processed + 1
        },
        TransferItemError::StreamError | TransferItemError::Terminated => after.failed == before.failed
            && after.processed == before.processed,
    }
}

/// How many of some outcomes are of items that arrived, or failed for good.
pub open spec fn ended(outcomes: Seq<Result<(), TransferItemError>>) -> nat {
    outcomes.filter(
        |outcome: Result<(), TransferItemError>|
            outcome != Err::<(), TransferItemError>(TransferItemError::StreamError) && outcome != Err::<
                (),
                TransferItemError,
            >(TransferItemError::Terminated),
    ).len()
}

/// What is left of a transfer are the items that have neither arrived nor failed for good.
pub proof fn law_left_have_not_ended(outcomes: Seq<Result<(), TransferItemError>>, total: u32)
    requires
        ended(outcomes) <= total,
    ensures
        items_left(total, processed_after(outcomes)) == total - ended(outcomes),
{
    lemma_ended(outcomes);
    law_transfer_ends(outcomes, total);
}

proof fn lemma_ended(outcomes: Seq<Result<(), TransferItemError>>)
    ensures
        settled(outcomes) == ended(outcomes),
    decreases outcomes.len(),
{
    reveal(Seq::filter);
    if outcomes.len() > 0 {
        lemma_ended(outcomes.drop_last());
    }
}

/// Whether an outcome settles an item.
pub open spec fn settles(outcome: Result<(), TransferItemError>) -> bool {
    match outcome {
        Ok(_) => true,
        Err(e) => is_final(e),
    }
}

/// How many of some outcomes settle an item.
pub open spec fn settled(outcomes: Seq<Result<(), TransferItemError>>) -> nat
    decreases outcomes.len(),
{
    if outcomes.len() == 0 {
        0
    } else if settles(outcomes.last()) {
        settled(outcomes.drop_last()) + 1
    } else {
        settled(outcomes.drop_last())
    }
}

/// How many items are processed after some outcomes.
pub open spec fn processed_after(outcomes: Seq<Result<(), TransferItemError>>) -> u32
    decreases outcomes.len(),
{
    if outcomes.len() == 0 {
        0
    } else if settles(outcomes.last()) {
        one_more(processed_after(outcomes.drop_last()))
    } else {
        processed_after(outcomes.drop_last())
    }
}

/// Nothing is left of a transfer exactly once each of its items is settled.
pub proof fn law_transfer_ends(outcomes: Seq<Result<(), TransferItemError>>, total: u32)
    requires
        settled(outcomes) <= total,
    ensures
        items_left(total, processed_after(outcomes)) == total - settled(outcomes),
    decreases outcomes.len(),
{
    lemma_processed(outcomes);
}

proof fn lemma_processed(outcomes: Seq<Result<(), TransferItemError>>)
    ensures
        settled(outcomes) <= u32::MAX ==> processed_after(outcomes) == settled(outcomes),
    decreases outcomes.len(),
{
    if outcomes.len() > 0 {
        lemma_processed(outcomes.drop_last());
    }
}

/// What a transfer does next about the items that it sends.
#[derive(Debug, Clone, Copy, PartialEq, Eq, Structural)]
pub enum SendStep {
    /// Send this item.
    Item(usize),
    /// Look again, as more items have been taken from the queue.
    Refilled,
    /// Wait for the last items and stop.
    Drained,
}

/// The name of the directory that the items of a transfer are kept in.
pub open spec fn transfer_dir_name(id: Seq<u8>, direction: TransferDirection) -> Seq<char> {
    "Nectan/t-"@ + crate::messages::uuid_text_from(id, 0) + "-"@ + (match direction {
        TransferDirection::Outcoming => "out"@,
        TransferDirection::Incoming => "in"@,
    })
}

impl PendingTransfer {
    /// Whether there is a place in the queue for each item.
    pub open spec fn wf(&self) -> bool {
        self.items_queue@.len() == self.total_items
    }

    /// Whether two transfers differ in nothing but the queue and the counts.
    pub open spec fn same_transfer(&self, other: &PendingTransfer) -> bool {
        &&& self.id == other.id
        &&& self.target == other.target
        &&& self.direction == other.direction
        &&& self.total_items == other.total_items
        &&& self.root_path == other.root_path
    }

    /// The transfer that an offer becomes, and its items; those that are received go to
    /// `receive_dir`. Where the entries of the tree have the numbers that its own
    /// building gives them, each place of the queue has its item.
    pub fn from_offer(
        target: DeviceId,
        direction: TransferDirection,
        offer: TransferOffer<PathTree>,
        receive_dir: TreePath,
    ) -> (made: (PendingTransfer, Vec<TransferItem>))
        requires
            offer.tree.wf(),
            rows(offer.tree@).len() == offer.entries_num,
        ensures
            made.0.wf(),
            made.0.id == offer.transfer_id,
            made.0.target == target,
            made.0.direction == direction,
            made.0.failed == 0,
            made.0.processed == 0,
            made.0.total_items == offer.entries_num,
            made.0.root_path@ == transfer_root(direction, offer.tree@, receive_dir@),
            !made.0.cancelled,
            made.0.items_queue@ == Seq::new(offer.entries_num as nat, |i: int| false),
            made.1@.map_values(|item: TransferItem| item@) == tree_items(offer.tree@),
            items_lead_back(offer.tree@, made.1@),
            items_unsent(offer.tree@, made.1@),
            ids_unique(offer.tree@, offer.entries_num as nat) ==> forall|n: u32|
                n < offer.entries_num ==> #[trigger] has_item(made.1@, n),
    {
        let common = offer.tree.common_parent();
        let ghost root = common@;
        let lines = offer.tree.to_vec();
        let ghost show = |item: (TreePath, bool, u64, u32)| row_of(item);
        let ghost goal = rows(offer.tree@);
        let ghost listed = lines@;
        assert(listed.map_values(show) == goal);
        let mut items: Vec<TransferItem> = Vec::new();
        for line in it: lines
            invariant
                it.seq() == lines@,
                listed == lines@,
                goal.len() == listed.len(),
                forall|i: int| 0 <= i < listed.len() ==> #[trigger] row_of(listed[i]) == goal[i],
                items@.len() == it.index(),
                forall|i: int| 0 <= i < items@.len() ==> (#[trigger] items@[i])@ == row_item(root, goal[i]),
                common@ == root,
        {
            let ghost i = it.index() as int;
            assert(row_of(listed[i]) == goal[i]);
            let (path, is_file, size, id) = line;
            let path = path.relative_to(&common);
            items.push(TransferItem { id, size, sent_bytes: 0, is_file, path, err: None });
        }
        assert(items@.map_values(|item: TransferItem| item@) =~= tree_items(offer.tree@));
        proof {
            lemma_items_lead_back(offer.tree@, items@);
        }
        let root_path = match direction {
            TransferDirection::Outcoming => common,
            TransferDirection::Incoming => receive_dir,
        };
        let pending = PendingTransfer {
            id: offer.transfer_id,
            target,
            direction,
            items_queue: ItemQueue::new(offer.entries_num as usize),
            failed: 0,
            total_items: offer.entries_num,
            processed: 0,
            root_path,
            cancelled: false,
        };
        proof {
            if ids_unique(offer.tree@, offer.entries_num as nat) {
                assert forall|n: u32| n < offer.entries_num implies #[trigger] has_item(items@, n) by {
                    law_ids_cover(offer.tree@, n as nat);
                    let i = choose|i: int| 0 <= i < goal.len() && (#[trigger] goal[i]).info.id == n;
                    assert(items@[i]@ == row_item(root, goal[i]));
                    assert(items@[i].id == n);
                }
            }
        }
        (pending, items)
    }

    /// The directory, in the system's directory for data, that the items are kept in.
    pub fn db_path(&self, data_dir: &TreePath) -> (path: TreePath)
        ensures
            path@ == joined(
                data_dir@,
                components(vstd::utf8::encode_utf8(transfer_dir_name(self.id@, self.direction))),
            ),
    {
        let mut name = String::from_str("Nectan/t-");
        name.append(self.id.to_string().as_str());
        name.append("-");
        match self.direction {
            TransferDirection::Outcoming => {
                name.append("out");
            },
            TransferDirection::Incoming => {
                name.append("in");
            },
        }
        data_dir.join(&TreePath::from_text(name.as_str()))
    }

    /// Stops the transfer.
    pub fn cancel(&mut self)
        ensures
            final(self).cancelled,
            *final(self) == (PendingTransfer { cancelled: true, ..*old(self) }),
    {
        self.cancelled = true;
    }

    fn left(&self) -> (n: u32)
        ensures
            n == items_left(self.total_items, self.processed),
    {
        if self.processed <= self.total_items {
            self.total_items - self.processed
        } else {
            0
        }
    }

    /// Counts an item as processed. Returns how many are left.
    pub fn item_finished(&mut self) -> (left: u32)
        ensures
            *final(self) == (PendingTransfer { processed: one_more(old(self).processed), ..*old(self) }),
            left == items_left(old(self).total_items, one_more(old(self).processed)),
            old(self).processed < 0xffff_ffff ==> final(self).processed == old(self).processed + 1,
            final(self).processed <= final(self).total_items ==> left == final(self).total_items - final(self).processed,
    {
        self.processed = self.processed.wrapping_add(1);
        self.left()
    }

    /// Counts an item that failed for good as processed; one that failed on the
    /// network is tried again. Returns how many are left.
    pub fn handle_item_err(&mut self, e: TransferItemError) -> (left: u32)
        ensures
            *final(self) == (if is_final(e) {
                PendingTransfer {
                    processed: one_more(old(self).processed),
                    failed: one_more(old(self).failed),
                    ..*old(self)
                }
            } else {
                *old(self)
            }),
            left == items_left(final(self).total_items, final(self).processed),
            counts_failure(*old(self), *final(self), e),
            final(self).processed <= final(self).total_items ==> left == final(self).total_items - final(self).processed,
    {
        if e.is_final() {
            self.failed = self.failed.wrapping_add(1);
            self.item_finished()
        } else {
            self.left()
        }
    }

    /// Takes the outcome of sending an item. One that failed goes back to the queue.
    pub fn item_sent(&mut self, item: u32, outcome: Result<(), TransferItemError>)
        requires
            old(self).wf(),
            item < old(self).total_items,
        ensures
            final(self).wf(),
            final(self).same_transfer(old(self)),
            final(self).cancelled == old(self).cancelled,
            match outcome {
                Ok(_) => {
                    &&& final(self).processed == one_more(old(self).processed)
                    &&& final(self).failed == old(self).failed
                    &&& final(self).items_queue@ == old(self).items_queue@
                },
                Err(e) => {
                    &&& final(self).processed == (if is_final(e) {
                        one_more(old(self).processed)
                    } else {
                        old(self).processed
                    })
                    &&& final(self).failed == (if is_final(e) {
                        one_more(old(self).failed)
                    } else {
                        old(self).failed
                    })
                    &&& final(self).items_queue@ == old(self).items_queue@.update(item as int, false)
                },
            },
            match outcome {
                Ok(_) => old(self).processed < 0xffff_ffff ==> final(self).processed == old(self).processed + 1,
                Err(e) => counts_failure(*old(self), *final(self), e),
            },
    {
        match outcome {
            Ok(_) => {
                let _ = self.item_finished();
            },
            Err(e) => {
                let _ = self.handle_item_err(e);
                self.items_queue.put_back(item as usize);
            },
        }
    }

    /// Takes the outcome of receiving an item. The transfer ends with its last item.
    /// Returns how many are left.
    pub fn item_received(&mut self, outcome: Result<(), TransferItemError>) -> (left: u32)
        ensures
            final(self).same_transfer(old(self)),
            final(self).items_queue == old(self).items_queue,
            final(self).processed == (match outcome {
                Ok(_) => one_more(old(self).processed),
                Err(e) => if is_final(e) {
                    one_more(old(self).processed)
                } else {
                    old(self).processed
                },
            }),
            final(self).failed == (match outcome {
                Err(e) if is_final(e) => one_more(old(self).failed),
                _ => old(self).failed,
            }),
            left == items_left(final(self).total_items, final(self).processed),
            final(self).processed <= final(self).total_items ==> left == final(self).total_items - final(self).processed,
            match outcome {
                Ok(_) => old(self).processed < 0xffff_ffff ==> final(self).processed == old(self).processed + 1,
                Err(e) => counts_failure(*old(self), *final(self), e),
            },
            final(self).cancelled == (old(self).cancelled || left == 0),
    {
        let left = match outcome {
            Ok(_) => self.item_finished(),
            Err(e) => self.handle_item_err(e),
        };
        if left == 0 {
            self.cancel();
        }
        left
    }

    /// The record of an item with how much of it has been sent; nothing where there
    /// is no record.
    pub fn set_item_progress(&self, record: Option<TransferItem>, sent_bytes: u64) -> (changed: Option<TransferItem>)
        ensures
            match record {
                Some(item) => changed matches Some(new) && new@ == (Item { sent_bytes, ..item@ }),
                None => changed is None,
            },
    {
        match record {
            Some(item) => {
                let mut meta = item;
                meta.sent_bytes = sent_bytes;
                Some(meta)
            },
            None => None,
        }
    }

    /// The record of an item with why it was not transferred; nothing where there is
    /// no record.
    pub fn set_item_error(&self, record: Option<TransferItem>, e: TransferItemError) -> (changed: Option<TransferItem>)
        ensures
            match record {
                Some(item) => changed matches Some(new) && new@ == (Item { err: Some(e), ..item@ }),
                None => changed is None,
            },
    {
        match record {
            Some(item) => {
                let mut meta = item;
                meta.err = Some(e);
                Some(meta)
            },
            None => None,
        }
    }

    /// Whether a stream of items may belong to this transfer.
    pub fn takes_streams(&self) -> (takes: bool)
        ensures
            takes == (self.direction == TransferDirection::Incoming),
    {
        match self.direction {
            TransferDirection::Incoming => true,
            TransferDirection::Outcoming => false,
        }
    }

    /// The next items, which are then marked as handed out.
    pub fn unsent_batch(&mut self) -> (batch: Vec<usize>)
        requires
            old(self).wf(),
        ensures
            final(self).wf(),
            batch@ == next_batch(old(self).items_queue@),
            final(self).items_queue@ == with_taken(old(self).items_queue@, batch@),
            final(self).same_transfer(old(self)),
            final(self).processed == old(self).processed,
            final(self).failed == old(self).failed,
            final(self).cancelled == old(self).cancelled,
    {
        self.items_queue.unsent_batch()
    }

    /// What to do next about the items that are sent, where `queue` holds those that
    /// have been handed out. Items are sent from its end. Once it is empty and every
    /// item is processed the transfer is drained.
    pub fn send_step(&mut self, queue: &mut Vec<usize>) -> (step: SendStep)
        requires
            old(self).wf(),
        ensures
            final(self).wf(),
            final(self).same_transfer(old(self)),
            final(self).processed == old(self).processed,
            final(self).failed == old(self).failed,
            final(self).cancelled == old(self).cancelled,
            if old(queue)@.len() > 0 {
                &&& step == SendStep::Item(old(queue)@.last())
                &&& final(queue)@ == old(queue)@.drop_last()
                &&& final(self).items_queue@ == old(self).items_queue@
            } else if old(self).processed == old(self).total_items {
                &&& step == SendStep::Drained
                &&& final(queue)@ == old(queue)@
                &&& final(self).items_queue@ == old(self).items_queue@
            } else {
                &&& step == SendStep::Refilled
                &&& final(queue)@ == next_batch(old(self).items_queue@)
                &&& final(self).items_queue@ == with_taken(old(self).items_queue@, final(queue)@)
            },
    {
        match queue.pop() {
            Some(item) => SendStep::Item(item),
            None => {
                if self.processed == self.total_items {
                    return SendStep::Drained;
                }
                let mut batch = self.unsent_batch();
                queue.append(&mut batch);
                assert(queue@ =~= next_batch(old(self).items_queue@));
                SendStep::Refilled
            },
        }
    }
}

/// The transfers that are under way.
#[derive(Debug)]
pub struct Transfers {
    pending_transfers: Vec<PendingTransfer>,
}

/// Transfers under their identities.
pub open spec fn by_uuid(transfers: Seq<PendingTransfer>) -> Seq<(Seq<u8>, PendingTransfer)> {
    transfers.map_values(|t: PendingTransfer| (t.id@, t))
}

impl View for Transfers {
    type V = Map<Seq<u8>, PendingTransfer>;

    closed spec fn view(&self) -> Map<Seq<u8>, PendingTransfer> {
        map_of(by_uuid(self.pending_transfers@))
    }
}

impl Transfers {
    /// Whether each transfer is there once.
    pub closed spec fn wf(&self) -> bool {
        keys_unique(by_uuid(self.pending_transfers@))
    }

    /// No transfers.
    pub fn new() -> (transfers: Transfers)
        ensures
            transfers.wf(),
            transfers@ == Map::<Seq<u8>, PendingTransfer>::empty(),
    {
        let transfers = Transfers { pending_transfers: Vec::new() };
        assert(by_uuid(transfers.pending_transfers@) =~= Seq::empty());
        transfers
    }

    fn find(&self, id: &Uuid) -> (found: Option<usize>)
        ensures
            match found {
                Some(i) => i < self.pending_transfers@.len() && by_uuid(self.pending_transfers@)[i as int].0 == id@,
                None => !has_key(by_uuid(self.pending_transfers@), id@),
            },
    {
        let mut i: usize = 0;
        while i < self.pending_transfers.len()
            invariant
                i <= self.pending_transfers@.len(),
                forall|j: int| 0 <= j < i ==> (#[trigger] by_uuid(self.pending_transfers@)[j]).0 != id@,
            decreases self.pending_transfers@.len() - i,
        {
            if self.pending_transfers[i].id.same_as(id) {
                return Some(i);
            }
            i = i + 1;
        }
        None
    }

    /// Puts a transfer under its identity.
    pub fn insert(&mut self, transfer: PendingTransfer)
        requires
            old(self).wf(),
        ensures
            final(self).wf(),
            final(self)@ == old(self)@.insert(transfer.id@, transfer),
    {
        let ghost before = by_uuid(self.pending_transfers@);
        let ghost (id, value) = (transfer.id@, transfer);
        match self.find(&transfer.id) {
            Some(i) => {
                self.pending_transfers[i] = transfer;
                proof {
                    lemma_map_update(before, i as int, value);
                    assert(by_uuid(self.pending_transfers@) =~= before.update(i as int, (id, value)));
                }
            },
            None => {
                self.pending_transfers.push(transfer);
                proof {
                    lemma_map_push(before, id, value);
                    assert(by_uuid(self.pending_transfers@) =~= before.push((id, value)));
                }
            },
        }
    }

    /// The transfer with an identity; none is found where there is none.
    pub fn get(&self, id: &Uuid) -> (transfer: Option<&PendingTransfer>)
        requires
            self.wf(),
        ensures
            match transfer {
                Some(t) => self@.contains_pair(id@, *t),
                None => !self@.contains_key(id@),
            },
    {
        proof {
            lemma_map_of(by_uuid(self.pending_transfers@));
        }
        match self.find(id) {
            Some(i) => {
                assert(by_uuid(self.pending_transfers@)[i as int].1 == self.pending_transfers@[i as int]);
                Some(&self.pending_transfers[i])
            },
            None => None,
        }
    }

    /// The transfer with an identity, which is then no longer here.
    pub fn take(&mut self, id: &Uuid) -> (transfer: Option<PendingTransfer>)
        requires
            old(self).wf(),
        ensures
            final(self).wf(),
            final(self)@ == old(self)@.remove(id@),
            match transfer {
                Some(t) => old(self)@.contains_pair(id@, t) && t.id@ == id@,
                None => !old(self)@.contains_key(id@),
            },
    {
        let ghost before = by_uuid(self.pending_transfers@);
        proof {
            lemma_map_of(before);
        }
        match self.find(id) {
            Some(i) => {
                assert(before[i as int].1 == self.pending_transfers@[i as int]);
                let transfer = self.pending_transfers.remove(i);
                proof {
                    lemma_map_remove(before, i as int);
                    assert(by_uuid(self.pending_transfers@) =~= before.remove(i as int));
                }
                Some(transfer)
            },
            None => {
                assert(self@ =~= self@.remove(id@));
                None
            },
        }
    }

    /// Begins the transfer that an offer becomes. Gives its items, and whether they
    /// are sent: those that go out are, where there is a connection.
    pub fn new_offer(
        &mut self,
        target: DeviceId,
        direction: TransferDirection,
        offer: TransferOffer<PathTree>,
        connected: bool,
        receive_dir: TreePath,
    ) -> (begun: (Vec<TransferItem>, bool))
        requires
            old(self).wf(),
            offer.tree.wf(),
            rows(offer.tree@).len() == offer.entries_num,
        ensures
            final(self).wf(),
            begun.0@.map_values(|item: TransferItem| item@) == tree_items(offer.tree@),
            items_lead_back(offer.tree@, begun.0@),
            items_unsent(offer.tree@, begun.0@),
            begun.1 == (direction == TransferDirection::Outcoming && connected),
            exists|t: PendingTransfer|
                {
                    &&& #[trigger] old(self)@.insert(offer.transfer_id@, t) == final(self)@
                    &&& t.wf()
                    &&& t.id == offer.transfer_id
                    &&& t.target == target
                    &&& t.direction == direction
                    &&& t.total_items == offer.entries_num
                    &&& t.processed == 0
                    &&& t.failed == 0
                    &&& !t.cancelled
                    &&& t.root_path@ == transfer_root(direction, offer.tree@, receive_dir@)
                    &&& t.items_queue@ == Seq::new(offer.entries_num as nat, |i: int| false)
                },
    {
        let (transfer, items) = PendingTransfer::from_offer(target, direction, offer, receive_dir);
        let ghost made = transfer;
        self.insert(transfer);
        assert(old(self)@.insert(offer.transfer_id@, made) == self@);
        let outgoing = match direction {
            TransferDirection::Outcoming => true,
            TransferDirection::Incoming => false,
        };
        (items, outgoing && connected)
    }
}

/// The connection that an offer to a device goes over.
pub fn offer_route(devices: &DevicesPool, target: &DeviceId) -> (route: Result<u64, TransferOfferError>)
    requires
        devices.wf(),
    ensures
        route == (if !devices@.contains_key(target@) {
            Err(TransferOfferError::InvalidDestination)
        } else {
            match devices@[target@].connection {
                Some(connection) => Ok(connection),
                None => Err(TransferOfferError::DeviceOffline),
            }
        }),
{
    match devices.get(target) {
        None => Err(TransferOfferError::InvalidDestination),
        Some(device) => match device.connection {
            Some(connection) => Ok(connection),
            None => Err(TransferOfferError::DeviceOffline),
        },
    }
}

/// The message that makes an offer.
pub fn offer_message(offer: TransferOffer<PathTree>) -> (message: NetMessage)
    requires
        offer.tree.wf(),
    ensures
        message matches NetMessage::TransferOfferMsg { offer: sent } && crate::protocol::same_terms(offer, sent)
            && crate::wire::zstd_decoded(sent.tree@) == Some(crate::tree_codec::node_bytes(offer.tree@))
            && crate::path_tree::comes_back(offer.tree@, sent.tree@),
{
    NetMessage::TransferOfferMsg { offer: offer.compress() }
}

/// What the answer to an offer says; without one there was none to be read.
pub fn offer_outcome(response: Option<NetMessage>) -> (outcome: Result<(), TransferOfferError>)
    ensures
        outcome == (match response {
            None => Err(TransferOfferError::ConnectionFailed),
            Some(NetMessage::Rejected { reason }) => Err(TransferOfferError::TransferRejected),
            Some(NetMessage::Accepted) => Ok(()),
            Some(_) => Err(TransferOfferError::UnexpectedResponse),
        }),
{
    match response {
        None => Err(TransferOfferError::ConnectionFailed),
        Some(NetMessage::Rejected { reason: _ }) => Err(TransferOfferError::TransferRejected),
        Some(NetMessage::Accepted) => Ok(()),
        Some(_) => Err(TransferOfferError::UnexpectedResponse),
    }
}

/// Each error has its number on the wire, and each number up to six its error.
pub proof fn law_error_numbers(n: nat, e: TransferItemError)
    ensures
        error_numbered(error_number(e)) == Some(e),
        n > 6 ==> error_numbered(n) is None,
        n <= 6 ==> error_numbered(n) is Some && error_number(error_numbered(n)->0) == n,
        error_number(e) == 0 <==> e == TransferItemError::FileIOError,
        error_number(e) == 1 <==> e == TransferItemError::FileAlreadyExisted,
        error_number(e) == 2 <==> e == TransferItemError::FileOpenPermissionDenied,
        error_number(e) == 3 <==> e == TransferItemError::FileNotFound,
        error_number(e) == 4 <==> e == TransferItemError::StreamError,
        error_number(e) == 5 <==> e == TransferItemError::OpenFail,
        error_number(e) == 6 <==> e == TransferItemError::Terminated,
{
}

/// An item is written as its number, its size, how much of it has been sent, whether it is
/// a file, its path and what went wrong, in this order. One whose path is not UTF-8 is not
/// written.
pub proof fn law_item_form(item: Item)
    ensures
        !vstd::utf8::valid_utf8(render(item.path)) ==> item_bytes(item) is None,
        vstd::utf8::valid_utf8(render(item.path)) ==> {
            let path = text_bytes(vstd::utf8::decode_utf8(render(item.path)));
            let flag = if item.is_file { seq![1u8] } else { seq![0u8] };
            let err = match item.err {
                Some(e) => seq![1u8] + varint(error_number(e)),
                None => seq![0u8],
            };
            item_bytes(item) == Some(
                varint(item.id as nat) + varint(item.size as nat) + varint(item.sent_bytes as nat) + flag + path + err,
            )
        },
{
}

/// A header says of an item what the item says of itself, but for what went wrong.
pub proof fn law_header_says(header: TransferItemHeader, item: TransferItem)
    ensures
        header@.id == header.id,
        header@.size == header.file_size,
        header@.sent_bytes == header.sent_bytes,
        header@.is_file == header.is_file,
        header@.path == header.path@,
        header@.err is None,
        item@.id == item.id,
        item@.size == item.size,
        item@.sent_bytes == item.sent_bytes,
        item@.is_file == item.is_file,
        item@.path == item.path@,
        item@.err == item.err,
{
}

/// What goes out is sent from the common parent of all of it; what comes in goes to the
/// directory that is given, whatever is in it.
pub proof fn law_root_of_a_transfer(node: Node, receive_dir: Seq<Seq<u8>>)
    ensures
        transfer_root(TransferDirection::Outcoming, node, receive_dir) == spine(node, Seq::empty()),
        transfer_root(TransferDirection::Incoming, node, receive_dir) == receive_dir,
{
}

/// Each line below the common parent becomes an item whose path, put behind the common
/// parent, is that line's path again; any other line keeps its path.
pub proof fn law_item_paths(node: Node, i: int)
    requires
        named(node),
        0 <= i < rows(node).len(),
    ensures
        ({
            let root = spine(node, Seq::empty());
            let line = rows(node)[i].path;
            let path = tree_items(node)[i].path;
            let below = root.len() < line.len() && line.take(root.len() as int) == root;
            &&& below ==> root + path == line
            &&& !below ==> path == line
        }),
{
    let root = spine(node, Seq::empty());
    let line = rows(node)[i].path;
    if root.len() < line.len() && line.take(root.len() as int) == root {
        assert(root + line.skip(root.len() as int) =~= line);
    }
}

/// Transfers in both directions have directories of their own, named by the transfer.
pub proof fn law_transfer_dirs(id: Seq<u8>)
    ensures
        transfer_dir_name(id, TransferDirection::Outcoming) == "Nectan/t-"@ + crate::messages::uuid_text_from(id, 0)
            + "-"@ + "out"@,
        transfer_dir_name(id, TransferDirection::Incoming) == "Nectan/t-"@ + crate::messages::uuid_text_from(id, 0)
            + "-"@ + "in"@,
{
}

/// Each transfer stands under its identity, and is sound where its queue has a place for
/// each of its items.
pub proof fn law_transfers_under_identities(transfers: Seq<PendingTransfer>, i: int)
    requires
        0 <= i < transfers.len(),
    ensures
        by_uuid(transfers).len() == transfers.len(),
        by_uuid(transfers)[i].0 == transfers[i].id@,
        by_uuid(transfers)[i].1 == transfers[i],
        transfers[i].wf() <==> transfers[i].items_queue@.len() == transfers[i].total_items,
{
}

/// What two transfers are is the same where they have the same identity, device, direction,
/// number of items and root.
pub proof fn law_same_transfer(a: PendingTransfer, b: PendingTransfer)
    ensures
        a.same_transfer(&b) <==> a.id == b.id && a.target == b.target && a.direction == b.direction && a.total_items
            == b.total_items && a.root_path == b.root_path,
{
}

/// An error about an offer is told by its name.
pub proof fn law_names_of_offer_errors(error: TransferOfferError)
    ensures
        error is DeviceOffline ==> offer_error_name(error) == "DeviceOffline"@,
        error is InvalidDestination ==> offer_error_name(error) == "InvalidDestination"@,
        error is TransferRejected ==> offer_error_name(error) == "TransferRejected"@,
        error is UnexpectedResponse ==> offer_error_name(error) == "UnexpectedResponse"@,
        error is ConnectionFailed ==> offer_error_name(error) == "ConnectionFailed"@,
{
}

/// What goes over a stream before the contents of an item is its number, its size, how
/// much of it has been sent, whether it is a file and its path, in this order. It can be
/// sent where the path is sound and UTF-8.
pub proof fn law_header_is_streamed(header: TransferItemHeader, payload: Seq<u8>)
    ensures
        header.sendable() <==> well_formed(header.path@) && vstd::utf8::valid_utf8(render(header.path@)),
        header.sendable() ==> header.payload() == varint(header.id as nat) + varint(header.file_size as nat) + varint(
            header.sent_bytes as nat,
        ) + bool_bytes(header.is_file) + text_bytes(vstd::utf8::decode_utf8(render(header.path@))),
        read_head(payload) is None ==> TransferItemHeader::parsed(payload) is None,
        read_head(payload) matches Some((item, rest)) ==> TransferItemHeader::parsed(payload) == Some(item),
{
}

/// The items that a transfer begins with are those of the listing, of which nothing has
/// been sent and nothing has gone wrong; one has a given number where a line has it.
pub proof fn law_first_items(node: Node, items: Seq<TransferItem>, i: int, number: u32)
    requires
        items_unsent(node, items),
    ensures
        items.len() == rows(node).len(),
        0 <= i < items.len() ==> {
            &&& items[i].sent_bytes == 0
            &&& items[i].err is None
            &&& items[i].is_file == rows(node)[i].info.is_file
            &&& items[i].size == rows(node)[i].info.size
            &&& items[i].id == rows(node)[i].info.id
        },
        has_item(items, number) <==> exists|k: int| 0 <= k < rows(node).len() && (#[trigger] rows(node)[k]).info.id == number,
{
    if has_item(items, number) {
        let k = choose|k: int| 0 <= k < items.len() && (#[trigger] items[k]).id == number;
        assert(rows(node)[k].info.id == number);
    }
    if exists|k: int| 0 <= k < rows(node).len() && (#[trigger] rows(node)[k]).info.id == number {
        let k = choose|k: int| 0 <= k < rows(node).len() && (#[trigger] rows(node)[k]).info.id == number;
        assert(items[k].id == number);
    }
}

/// A transfer that has counted a failure has one failed item more and one processed item
/// more, where it is one for good, and as many as before where the item is tried again.
pub proof fn law_counted_failure(before: PendingTransfer, after: PendingTransfer, e: TransferItemError)
    requires
        counts_failure(before, after, e),
        before.failed < 0xffff_ffff,
        before.processed < 0xffff_ffff,
    ensures
        e == TransferItemError::FileOpenPermissionDenied || e == TransferItemError::OpenFail || e
            == TransferItemError::FileAlreadyExisted || e == TransferItemError::FileNotFound || e
            == TransferItemError::FileIOError ==> after.failed == before.failed + 1 && after.processed
            == before.processed + 1,
        e == TransferItemError::StreamError || e == TransferItemError::Terminated ==> after.failed == before.failed
            && after.processed == before.processed,
{
}

} // verus!
