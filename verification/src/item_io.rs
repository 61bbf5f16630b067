//! How one item of a transfer is received and sent, step by step.

use crate::messages::{NetMessage, Uuid};
use crate::path::{is_normal, joined, normal_parts, TreePath};
use crate::transfers::{header_item, Item, TransferItem, TransferItemError, TransferItemHeader};
use crate::windows::{has_drive, law_windows_names, windows_names};
use vstd::prelude::*;

verus! {

/// How much of a stream is read at once.
pub const CHUNK_SIZE: usize = 131072;

/// Where an item goes: under `root`, by the names in its path alone.
pub open spec fn output_parts(root: Seq<Seq<u8>>, path: Seq<Seq<u8>>) -> Seq<Seq<u8>> {
    joined(root, normal_parts(path))
}

/// Where an item goes while it is not complete.
pub open spec fn lock_parts(root: Seq<Seq<u8>>, path: Seq<Seq<u8>>) -> Seq<Seq<u8>> {
    let suffix = vstd::utf8::encode_utf8(".NectanLock"@);
    let names = normal_parts(path);
    if names.len() == 0 {
        root.push(suffix)
    } else {
        let output = output_parts(root, path);
        output.drop_last().push(output.last() + suffix)
    }
}

/// No item goes outside the directory that items go to, whatever its path.
pub proof fn law_output_stays_inside(root: Seq<Seq<u8>>, path: Seq<Seq<u8>>)
    ensures
        output_parts(root, path) == root + normal_parts(path),
        forall|i: int| 0 <= i < normal_parts(path).len() ==> is_normal(#[trigger] normal_parts(path)[i]),
        lock_parts(root, path).len() >= root.len(),
        lock_parts(root, path).take(root.len() as int) == root,
        lock_parts(root, path) != output_parts(root, path),
{
    crate::path::lemma_normal_parts(path);
    let names = normal_parts(path);
    let suffix = vstd::utf8::encode_utf8(".NectanLock"@);
    reveal_strlit(".NectanLock");
    vstd::utf8::is_ascii_chars_encode_utf8(".NectanLock"@);
    if names.len() > 0 {
        assert(is_normal(names[0]));
    }
    assert(output_parts(root, path) =~= root + names);
    assert(lock_parts(root, path).take(root.len() as int) =~= root);
    if names.len() > 0 {
        let output = output_parts(root, path);
        assert(lock_parts(root, path).last().len() == output.last().len() + suffix.len());
    }
}

/// No item goes outside the directory that items go to on Windows either, whatever its
/// path: its names are parted at both slashes and bring no drive with them.
pub proof fn law_windows_output_stays_inside(root: Seq<Seq<u8>>, path: Seq<Seq<u8>>)
    ensures
        output_parts(root, windows_names(path)) == root + windows_names(path),
        forall|i: int|
            0 <= i < windows_names(path).len() ==> {
                &&& is_normal(#[trigger] windows_names(path)[i])
                &&& !windows_names(path)[i].contains(47u8)
                &&& !windows_names(path)[i].contains(92u8)
                &&& !has_drive(windows_names(path)[i])
            },
        lock_parts(root, windows_names(path)).len() >= root.len(),
        lock_parts(root, windows_names(path)).take(root.len() as int) == root,
        lock_parts(root, windows_names(path)) != output_parts(root, windows_names(path)),
{
    let names = windows_names(path);
    law_windows_names(path);
    law_output_stays_inside(root, names);
    lemma_all_normal(names);
}

proof fn lemma_all_normal(names: Seq<Seq<u8>>)
    requires
        forall|i: int| 0 <= i < names.len() ==> is_normal(#[trigger] names[i]),
    ensures
        normal_parts(names) == names,
    decreases names.len(),
{
    if names.len() > 0 {
        let init = names.drop_last();
        assert forall|i: int| 0 <= i < init.len() implies is_normal(#[trigger] init[i]) by {
            assert(init[i] == names[i]);
        }
        lemma_all_normal(init);
        assert(is_normal(names[names.len() - 1]));
        assert(init.push(names.last()) =~= names);
    }
}

/// Where the receiving of an item stands: what is to be done next.
#[derive(Debug, Clone, Copy, PartialEq, Eq, Structural)]
pub enum ReceiveStage {
    /// Make the directory.
    MakeDirectory,
    /// See whether the file is there.
    CheckExisting,
    /// Make the directory that the file goes to.
    MakeLockParent,
    /// Open the file that stands for it while it is not complete.
    OpenLock,
    /// Go to where the contents go on.
    Seek,
    /// Read from the stream.
    Read,
    /// Write what was read, so many bytes.
    Write(u64),
    /// Flush what was written of a file whose contents ended too early.
    FlushPart,
    /// Flush what was written.
    Flush,
    /// Give the file its name.
    Rename,
    /// The item is there.
    Done,
    /// The item is not there.
    Failed(TransferItemError),
}

/// What came of a step.
#[derive(Debug, Clone, Copy, PartialEq, Eq, Structural)]
pub enum ReceiveEvent {
    /// It went well.
    Fine,
    /// It went wrong.
    Wrong,
    /// The file is there, or is not.
    Exists(bool),
    /// So many bytes were read.
    Chunk(u64),
    /// The stream ended.
    End,
    /// The transfer was stopped.
    Cancelled,
}

/// Receiving an item.
#[derive(Debug)]
pub struct Receiving {
    pub is_file: bool,
    pub file_size: u64,
    /// Where in the file the contents begin.
    pub start: u64,
    /// How many bytes the file has.
    pub total_written: u64,
    /// The file or directory that is received.
    pub output: TreePath,
    pub lock: TreePath,
    pub stage: ReceiveStage,
}

/// What is to be done after a step, given the file's size and how much of it is there.
pub open spec fn stage_after(stage: ReceiveStage, event: ReceiveEvent, file_size: u64, total: nat) -> ReceiveStage {
    let io_failed = ReceiveStage::Failed(TransferItemError::FileIOError);
    let went_well = event == ReceiveEvent::Fine;
    match stage {
        ReceiveStage::MakeDirectory => if went_well {
            ReceiveStage::Done
        } else {
            io_failed
        },
        ReceiveStage::CheckExisting => match event {
            ReceiveEvent::Exists(there) => if there {
                ReceiveStage::Failed(TransferItemError::FileAlreadyExisted)
            } else {
                ReceiveStage::MakeLockParent
            },
            _ => ReceiveStage::Failed(TransferItemError::OpenFail),
        },
        ReceiveStage::MakeLockParent => if went_well {
            ReceiveStage::OpenLock
        } else {
            io_failed
        },
        ReceiveStage::OpenLock => if went_well {
            ReceiveStage::Seek
        } else {
            io_failed
        },
        ReceiveStage::Seek => if went_well {
            ReceiveStage::Read
        } else {
            io_failed
        },
        ReceiveStage::Read => match event {
            ReceiveEvent::Chunk(n) => ReceiveStage::Write(n),
            ReceiveEvent::End => if total < file_size {
                ReceiveStage::FlushPart
            } else {
                ReceiveStage::Flush
            },
            ReceiveEvent::Cancelled => ReceiveStage::Failed(TransferItemError::Terminated),
            _ => ReceiveStage::Failed(TransferItemError::StreamError),
        },
        ReceiveStage::Write(n) => if went_well {
            ReceiveStage::Read
        } else {
            io_failed
        },
        ReceiveStage::FlushPart => if went_well {
            ReceiveStage::Failed(TransferItemError::StreamError)
        } else {
            io_failed
        },
        ReceiveStage::Flush => if went_well {
            ReceiveStage::Rename
        } else {
            io_failed
        },
        ReceiveStage::Rename => if went_well {
            ReceiveStage::Done
        } else {
            io_failed
        },
        ReceiveStage::Done => ReceiveStage::Done,
        ReceiveStage::Failed(e) => ReceiveStage::Failed(e),
    }
}

/// How many bytes the file has after a step.
pub open spec fn total_after(stage: ReceiveStage, event: ReceiveEvent, total: nat) -> nat {
    match stage {
        ReceiveStage::Write(n) => if event == ReceiveEvent::Fine {
            total + n as nat
        } else {
            total
        },
        _ => total,
    }
}

/// What is done first about an item.
pub open spec fn first_stage(is_file: bool) -> ReceiveStage {
    if is_file {
        ReceiveStage::CheckExisting
    } else {
        ReceiveStage::MakeDirectory
    }
}

impl Receiving {
    /// Begins to receive an item that goes under `root`.
    pub fn begin(root: &TreePath, header: &TransferItemHeader) -> (receiving: Receiving)
        ensures
            receiving.is_file == header.is_file,
            receiving.file_size == header.file_size,
            receiving.start == header.sent_bytes,
            receiving.total_written == header.sent_bytes,
            receiving.output@ == output_parts(root@, header.path@),
            receiving.lock@ == lock_parts(root@, header.path@),
            receiving.stage == first_stage(header.is_file),
    {
        Receiving::begin_at(root, header, &header.path)
    }

    /// Begins to receive an item that goes under `root`, where the file system is that of
    /// Windows.
    pub fn begin_on_windows(root: &TreePath, header: &TransferItemHeader) -> (receiving: Receiving)
        ensures
            receiving.is_file == header.is_file,
            receiving.file_size == header.file_size,
            receiving.start == header.sent_bytes,
            receiving.total_written == header.sent_bytes,
            receiving.output@ == output_parts(root@, windows_names(header.path@)),
            receiving.lock@ == lock_parts(root@, windows_names(header.path@)),
            receiving.stage == first_stage(header.is_file),
    {
        Receiving::begin_at(root, header, &header.path.windows_names())
    }

    fn begin_at(root: &TreePath, header: &TransferItemHeader, path: &TreePath) -> (receiving: Receiving)
        ensures
            receiving.is_file == header.is_file,
            receiving.file_size == header.file_size,
            receiving.start == header.sent_bytes,
            receiving.total_written == header.sent_bytes,
            receiving.output@ == output_parts(root@, path@),
            receiving.lock@ == lock_parts(root@, path@),
            receiving.stage == first_stage(header.is_file),
    {
        let names = path.normal_only();
        let output = root.join(&names);
        let lock = if names.len() == 0 {
            root.with_name(".NectanLock")
        } else {
            output.with_suffix(".NectanLock")
        };
        proof {
            law_output_stays_inside(root@, path@);
        }
        let stage = if header.is_file {
            ReceiveStage::CheckExisting
        } else {
            ReceiveStage::MakeDirectory
        };
        Receiving {
            is_file: header.is_file,
            file_size: header.file_size,
            start: header.sent_bytes,
            total_written: header.sent_bytes,
            output,
            lock,
            stage,
        }
    }

    /// Takes what came of the step that was to be done.
    pub fn step(&mut self, event: ReceiveEvent)
        requires
            old(self).stage matches ReceiveStage::Write(n) ==> old(self).total_written + n <= u64::MAX,
        ensures
            final(self).stage == stage_after(
                old(self).stage,
                event,
                old(self).file_size,
                old(self).total_written as nat,
            ),
            final(self).total_written == total_after(old(self).stage, event, old(self).total_written as nat),
            final(self).is_file == old(self).is_file,
            final(self).file_size == old(self).file_size,
            final(self).start == old(self).start,
            final(self).output == old(self).output,
            final(self).lock == old(self).lock,
            final(self).total_written == (match (old(self).stage, event) {
                (ReceiveStage::Write(n), ReceiveEvent::Fine) => old(self).total_written + n,
                _ => old(self).total_written as int,
            }),
    {
        let went_well = match event {
            ReceiveEvent::Fine => true,
            _ => false,
        };
        let io_failed = ReceiveStage::Failed(TransferItemError::FileIOError);
        let next = match self.stage {
            ReceiveStage::MakeDirectory => ReceiveStage::Done,
            ReceiveStage::CheckExisting => {
                self.stage = match event {
                    ReceiveEvent::Exists(there) => if there {
                        ReceiveStage::Failed(TransferItemError::FileAlreadyExisted)
                    } else {
                        ReceiveStage::MakeLockParent
                    },
                    _ => ReceiveStage::Failed(TransferItemError::OpenFail),
                };
                return;
            },
            ReceiveStage::MakeLockParent => ReceiveStage::OpenLock,
            ReceiveStage::OpenLock => ReceiveStage::Seek,
            ReceiveStage::Seek => ReceiveStage::Read,
            ReceiveStage::Read => {
                self.stage = match event {
                    ReceiveEvent::Chunk(n) => ReceiveStage::Write(n),
                    ReceiveEvent::End => if self.total_written < self.file_size {
                        ReceiveStage::FlushPart
                    } else {
                        ReceiveStage::Flush
                    },
                    ReceiveEvent::Cancelled => ReceiveStage::Failed(TransferItemError::Terminated),
                    _ => ReceiveStage::Failed(TransferItemError::StreamError),
                };
                return;
            },
            ReceiveStage::Write(n) => {
                if went_well {
                    self.total_written = self.total_written + n;
                }
                ReceiveStage::Read
            },
            ReceiveStage::FlushPart => ReceiveStage::Failed(TransferItemError::StreamError),
            ReceiveStage::Flush => ReceiveStage::Rename,
            ReceiveStage::Rename => ReceiveStage::Done,
            ReceiveStage::Done => {
                return;
            },
            ReceiveStage::Failed(_) => {
                return;
            },
        };
        self.stage = if went_well {
            next
        } else {
            io_failed
        };
    }
}

/// Where receiving stands, and how many bytes the file has, after some steps from
/// some stage.
pub open spec fn after_events(
    stage: ReceiveStage,
    total: nat,
    file_size: u64,
    events: Seq<ReceiveEvent>,
) -> (ReceiveStage, nat)
    decreases events.len(),
{
    if events.len() == 0 {
        (stage, total)
    } else {
        let (before, so_far) = after_events(stage, total, file_size, events.drop_last());
        (stage_after(before, events.last(), file_size, so_far), total_after(before, events.last(), so_far))
    }
}

/// A file that was received is complete, and was not there before.
pub proof fn law_received_is_complete(start: nat, file_size: u64, events: Seq<ReceiveEvent>)
    ensures
        after_events(ReceiveStage::CheckExisting, start, file_size, events).0 == ReceiveStage::Done ==> {
            &&& after_events(ReceiveStage::CheckExisting, start, file_size, events).1 >= file_size
            &&& events.len() > 0
            &&& events[0] == ReceiveEvent::Exists(false)
        },
{
    lemma_receive_progress(start, file_size, events);
}

proof fn lemma_receive_progress(start: nat, file_size: u64, events: Seq<ReceiveEvent>)
    ensures
        ({
            let (stage, total) = after_events(ReceiveStage::CheckExisting, start, file_size, events);
            &&& stage == ReceiveStage::Flush || stage == ReceiveStage::Rename || stage == ReceiveStage::Done ==> total
                >= file_size
            &&& stage != ReceiveStage::MakeDirectory
            &&& stage == ReceiveStage::CheckExisting <==> events.len() == 0
            &&& stage is Failed || stage == ReceiveStage::CheckExisting || events[0] == ReceiveEvent::Exists(false)
        }),
    decreases events.len(),
{
    if events.len() > 0 {
        lemma_receive_progress(start, file_size, events.drop_last());
        if events.len() == 1 {
            assert(after_events(ReceiveStage::CheckExisting, start, file_size, events.drop_last()) == (
                ReceiveStage::CheckExisting,
                start,
            ));
        } else {
            assert(events.drop_last()[0] == events[0]);
        }
    }
}

/// A directory is received exactly where it was made, and nothing is read for it.
pub proof fn law_directory_is_made(event: ReceiveEvent, file_size: u64, total: nat)
    ensures
        stage_after(first_stage(false), event, file_size, total) == (if event == ReceiveEvent::Fine {
            ReceiveStage::Done
        } else {
            ReceiveStage::Failed(TransferItemError::FileIOError)
        }),
{
}

/// Once receiving has ended nothing changes any more.
pub proof fn law_receiving_ends(stage: ReceiveStage, event: ReceiveEvent, file_size: u64, total: nat)
    requires
        stage == ReceiveStage::Done || stage is Failed,
    ensures
        stage_after(stage, event, file_size, total) == stage,
        total_after(stage, event, total) == total,
{
}

/// Where the sending of an item stands: what is to be done next.
#[derive(Debug, Clone, Copy, PartialEq, Eq, Structural)]
pub enum SendStage {
    /// Open the file.
    Open,
    /// Say which transfer the stream belongs to.
    WriteRequest,
    /// Send the header.
    WriteHeader,
    /// Read from the file.
    Read,
    /// Send what was read.
    WriteChunk,
    /// The item is sent.
    Done,
    /// The item is not sent.
    Failed(TransferItemError),
}

/// What came of a step.
#[derive(Debug, Clone, Copy, PartialEq, Eq, Structural)]
pub enum SendEvent {
    /// It went well.
    Fine,
    /// It went wrong.
    Wrong,
    /// The file may not be opened.
    PermissionDenied,
    /// The file is not there.
    NotFound,
    /// So many bytes were read.
    Bytes(u64),
    /// The transfer was stopped.
    Cancelled,
}

/// What is to be done after a step.
pub open spec fn send_stage_after(stage: SendStage, event: SendEvent) -> SendStage {
    let stream_failed = SendStage::Failed(TransferItemError::StreamError);
    let went_well = event == SendEvent::Fine;
    match stage {
        SendStage::Open => match event {
            SendEvent::Fine => SendStage::WriteRequest,
            SendEvent::PermissionDenied => SendStage::Failed(TransferItemError::FileOpenPermissionDenied),
            SendEvent::NotFound => SendStage::Failed(TransferItemError::FileNotFound),
            _ => SendStage::Failed(TransferItemError::OpenFail),
        },
        SendStage::WriteRequest => if went_well {
            SendStage::WriteHeader
        } else {
            stream_failed
        },
        SendStage::WriteHeader => if went_well {
            SendStage::Read
        } else {
            stream_failed
        },
        SendStage::Read => match event {
            SendEvent::Bytes(n) => if n == 0 {
                SendStage::Done
            } else {
                SendStage::WriteChunk
            },
            SendEvent::Cancelled => SendStage::Failed(TransferItemError::Terminated),
            _ => SendStage::Failed(TransferItemError::FileIOError),
        },
        SendStage::WriteChunk => if went_well {
            SendStage::Read
        } else {
            stream_failed
        },
        SendStage::Done => SendStage::Done,
        SendStage::Failed(e) => SendStage::Failed(e),
    }
}

/// How much of an item has been sent after a step.
pub open spec fn sent_after(stage: SendStage, event: SendEvent, sent: nat) -> nat {
    match (stage, event) {
        (SendStage::Read, SendEvent::Bytes(n)) => sent + n as nat,
        _ => sent,
    }
}

/// Sending an item.
#[derive(Debug)]
pub struct Sending {
    pub item: TransferItem,
    /// The file that is sent.
    pub file: TreePath,
    pub transfer_id: Uuid,
    pub stage: SendStage,
}

impl Sending {
    /// Begins to send an item of the transfer with a given root.
    pub fn begin(root: &TreePath, transfer_id: Uuid, item: TransferItem) -> (sending: Sending)
        ensures
            sending.item == item,
            sending.file@ == joined(root@, item.path@),
            sending.transfer_id == transfer_id,
            sending.stage == SendStage::Open,
    {
        let file = root.join(&item.path);
        Sending { item, file, transfer_id, stage: SendStage::Open }
    }

    /// The message that says which transfer the stream belongs to.
    pub fn request(&self) -> (message: NetMessage)
        ensures
            message == (NetMessage::TransferStream { transfer_id: self.transfer_id }),
    {
        NetMessage::TransferStream { transfer_id: self.transfer_id }
    }

    /// The header of the item.
    pub fn header(&self) -> (header: TransferItemHeader)
        ensures
            header_item(header) == (Item { err: None, ..self.item@ }),
            header.id == self.item.id,
            header.file_size == self.item.size,
            header.sent_bytes == self.item.sent_bytes,
            header.is_file == self.item.is_file,
            header.path@ == self.item.path@,
    {
        TransferItemHeader::of_item(&self.item)
    }

    /// Takes what came of the step that was to be done.
    pub fn step(&mut self, event: SendEvent)
        requires
            old(self).stage == SendStage::Read ==> (event matches SendEvent::Bytes(n) ==> old(self).item.sent_bytes + n
                <= u64::MAX),
        ensures
            final(self).stage == send_stage_after(old(self).stage, event),
            final(self).item@ == (Item {
                sent_bytes: sent_after(old(self).stage, event, old(self).item.sent_bytes as nat) as u64,
                ..old(self).item@
            }),
            final(self).file == old(self).file,
            final(self).transfer_id == old(self).transfer_id,
            final(self).item.sent_bytes == (match (old(self).stage, event) {
                (SendStage::Read, SendEvent::Bytes(n)) => old(self).item.sent_bytes + n,
                _ => old(self).item.sent_bytes as int,
            }),
    {
        let went_well = match event {
            SendEvent::Fine => true,
            _ => false,
        };
        let next = match self.stage {
            SendStage::Open => {
                self.stage = match event {
                    SendEvent::Fine => SendStage::WriteRequest,
                    SendEvent::PermissionDenied => SendStage::Failed(TransferItemError::FileOpenPermissionDenied),
                    SendEvent::NotFound => SendStage::Failed(TransferItemError::FileNotFound),
                    _ => SendStage::Failed(TransferItemError::OpenFail),
                };
                return;
            },
            SendStage::WriteRequest => SendStage::WriteHeader,
            SendStage::WriteHeader => SendStage::Read,
            SendStage::Read => {
                self.stage = match event {
                    SendEvent::Bytes(n) => {
                        self.item.sent_bytes = self.item.sent_bytes + n;
                        if n == 0 {
                            SendStage::Done
                        } else {
                            SendStage::WriteChunk
                        }
                    },
                    SendEvent::Cancelled => SendStage::Failed(TransferItemError::Terminated),
                    _ => SendStage::Failed(TransferItemError::FileIOError),
                };
                return;
            },
            SendStage::WriteChunk => SendStage::Read,
            SendStage::Done => {
                return;
            },
            SendStage::Failed(_) => {
                return;
            },
        };
        self.stage = if went_well {
            next
        } else {
            SendStage::Failed(TransferItemError::StreamError)
        };
    }
}

/// What is read of a stream that ended early: nothing came, or too little.
#[derive(Debug, Clone, Copy, PartialEq, Eq, Structural)]
pub enum ReadError {
    UnexpectedEof,
    InvalidData,
}

/// What it means that a stream ended after `n` bytes of those that were asked for.
pub fn ended_early(n: usize) -> (error: ReadError)
    ensures
        error == (if n == 0 {
            ReadError::UnexpectedEof
        } else {
            ReadError::InvalidData
        }),
{
    if n == 0 {
        ReadError::UnexpectedEof
    } else {
        ReadError::InvalidData
    }
}

/// The sum of the sizes of some chunks.
pub open spec fn chunks_total(chunks: Seq<u64>) -> nat
    decreases chunks.len(),
{
    if chunks.len() == 0 {
        0
    } else {
        chunks_total(chunks.drop_last()) + chunks.last() as nat
    }
}

/// What happens while chunks are read and written, all of which goes well.
pub open spec fn chunk_events(chunks: Seq<u64>) -> Seq<ReceiveEvent>
    decreases chunks.len(),
{
    if chunks.len() == 0 {
        Seq::empty()
    } else {
        chunk_events(chunks.drop_last()) + seq![ReceiveEvent::Chunk(chunks.last()), ReceiveEvent::Fine]
    }
}

proof fn lemma_after_more(stage: ReceiveStage, total: nat, file_size: u64, a: Seq<ReceiveEvent>, b: Seq<ReceiveEvent>)
    ensures
        after_events(stage, total, file_size, a + b) == ({
            let (then, so_far) = after_events(stage, total, file_size, a);
            after_events(then, so_far, file_size, b)
        }),
    decreases b.len(),
{
    if b.len() == 0 {
        assert(a + b =~= a);
    } else {
        assert((a + b).drop_last() =~= a + b.drop_last());
        lemma_after_more(stage, total, file_size, a, b.drop_last());
    }
}

proof fn lemma_chunks_received(total: nat, file_size: u64, chunks: Seq<u64>)
    ensures
        after_events(ReceiveStage::Read, total, file_size, chunk_events(chunks)) == (
            ReceiveStage::Read,
            total + chunks_total(chunks),
        ),
    decreases chunks.len(),
{
    reveal_with_fuel(after_events, 3);
    if chunks.len() > 0 {
        let init = chunk_events(chunks.drop_last());
        let two = seq![ReceiveEvent::Chunk(chunks.last()), ReceiveEvent::Fine];
        lemma_chunks_received(total, file_size, chunks.drop_last());
        lemma_after_more(ReceiveStage::Read, total, file_size, init, two);
        assert(two.drop_last() =~= seq![ReceiveEvent::Chunk(chunks.last())]);
        assert(two.drop_last().drop_last() =~= Seq::empty());
    }
}

/// A file that is not there yet, all of whose chunks arrive and are written, has what was
/// there before and the chunks. It is received where that is as much as was announced;
/// where the stream ends before, it is not, and is tried again.
pub proof fn law_all_chunks_arrive(start: nat, file_size: u64, chunks: Seq<u64>)
    ensures
        ({
            let opened = seq![
                ReceiveEvent::Exists(false),
                ReceiveEvent::Fine,
                ReceiveEvent::Fine,
                ReceiveEvent::Fine,
            ];
            let closed = seq![ReceiveEvent::End, ReceiveEvent::Fine, ReceiveEvent::Fine];
            let (stage, total) = after_events(
                first_stage(true),
                start,
                file_size,
                opened + chunk_events(chunks) + closed,
            );
            &&& total == start + chunks_total(chunks)
            &&& total >= file_size ==> stage == ReceiveStage::Done
            &&& total < file_size ==> stage == ReceiveStage::Failed(TransferItemError::StreamError)
        }),
{
    let opened = seq![ReceiveEvent::Exists(false), ReceiveEvent::Fine, ReceiveEvent::Fine, ReceiveEvent::Fine];
    let closed = seq![ReceiveEvent::End, ReceiveEvent::Fine, ReceiveEvent::Fine];
    lemma_after_more(first_stage(true), start, file_size, opened + chunk_events(chunks), closed);
    lemma_after_more(first_stage(true), start, file_size, opened, chunk_events(chunks));
    lemma_opened(start, file_size);
    lemma_chunks_received(start, file_size, chunks);
    lemma_closed(start + chunks_total(chunks), file_size);
}

proof fn lemma_one_event(stage: ReceiveStage, total: nat, file_size: u64, events: Seq<ReceiveEvent>)
    requires
        events.len() > 0,
    ensures
        after_events(stage, total, file_size, events) == after_events(
            stage_after(stage, events[0], file_size, total),
            total_after(stage, events[0], total),
            file_size,
            events.drop_first(),
        ),
{
    let one = seq![events[0]];
    assert(one + events.drop_first() =~= events);
    lemma_after_more(stage, total, file_size, one, events.drop_first());
    assert(one.drop_last() =~= Seq::empty());
    assert(after_events(stage, total, file_size, one.drop_last()) == (stage, total));
    assert(one.last() == events[0]);
}

proof fn lemma_opened(start: nat, file_size: u64)
    ensures
        after_events(
            first_stage(true),
            start,
            file_size,
            seq![ReceiveEvent::Exists(false), ReceiveEvent::Fine, ReceiveEvent::Fine, ReceiveEvent::Fine],
        ) == (ReceiveStage::Read, start),
{
    let fine = ReceiveEvent::Fine;
    let opened = seq![ReceiveEvent::Exists(false), fine, fine, fine];
    lemma_one_event(first_stage(true), start, file_size, opened);
    assert(opened.drop_first() =~= seq![fine, fine, fine]);
    lemma_one_event(ReceiveStage::MakeLockParent, start, file_size, seq![fine, fine, fine]);
    assert(seq![fine, fine, fine].drop_first() =~= seq![fine, fine]);
    lemma_one_event(ReceiveStage::OpenLock, start, file_size, seq![fine, fine]);
    assert(seq![fine, fine].drop_first() =~= seq![fine]);
    lemma_one_event(ReceiveStage::Seek, start, file_size, seq![fine]);
    assert(seq![fine].drop_first() =~= Seq::empty());
}

proof fn lemma_closed(total: nat, file_size: u64)
    ensures
        after_events(
            ReceiveStage::Read,
            total,
            file_size,
            seq![ReceiveEvent::End, ReceiveEvent::Fine, ReceiveEvent::Fine],
        ) == (
            if total >= file_size {
                ReceiveStage::Done
            } else {
                ReceiveStage::Failed(TransferItemError::StreamError)
            },
            total,
        ),
{
    let fine = ReceiveEvent::Fine;
    let closed = seq![ReceiveEvent::End, fine, fine];
    lemma_one_event(ReceiveStage::Read, total, file_size, closed);
    assert(closed.drop_first() =~= seq![fine, fine]);
    let then = stage_after(ReceiveStage::Read, ReceiveEvent::End, file_size, total);
    lemma_one_event(then, total, file_size, seq![fine, fine]);
    assert(seq![fine, fine].drop_first() =~= seq![fine]);
    lemma_one_event(stage_after(then, fine, file_size, total), total, file_size, seq![fine]);
    assert(seq![fine].drop_first() =~= Seq::empty());
}

/// Where a step of receiving does not go well the item fails, and the error says what went
/// wrong: the file is there, the disk, the stream, or that the transfer was stopped.
pub proof fn law_receiving_fails(stage: ReceiveStage, event: ReceiveEvent, file_size: u64, total: nat)
    ensures
        ({
            let next = stage_after(stage, event, file_size, total);
            let disk = stage == ReceiveStage::MakeDirectory || stage == ReceiveStage::MakeLockParent || stage
                == ReceiveStage::OpenLock || stage == ReceiveStage::Seek || stage is Write || stage
                == ReceiveStage::FlushPart || stage == ReceiveStage::Flush || stage == ReceiveStage::Rename;
            &&& disk && event != ReceiveEvent::Fine ==> next == ReceiveStage::Failed(TransferItemError::FileIOError)
            &&& stage == ReceiveStage::CheckExisting && event == ReceiveEvent::Exists(true) ==> next
                == ReceiveStage::Failed(TransferItemError::FileAlreadyExisted)
            &&& stage == ReceiveStage::CheckExisting && !(event is Exists) ==> next == ReceiveStage::Failed(
                TransferItemError::OpenFail,
            )
            &&& stage == ReceiveStage::Read && event == ReceiveEvent::Cancelled ==> next == ReceiveStage::Failed(
                TransferItemError::Terminated,
            )
            &&& stage == ReceiveStage::Read && event == ReceiveEvent::Wrong ==> next == ReceiveStage::Failed(
                TransferItemError::StreamError,
            )
            &&& !(stage is Write) || event != ReceiveEvent::Fine ==> total_after(stage, event, total) == total
        }),
{
}

/// Where sending stands, and how much has been sent, after some steps from some stage.
pub open spec fn sent_events(stage: SendStage, sent: nat, events: Seq<SendEvent>) -> (SendStage, nat)
    decreases events.len(),
{
    if events.len() == 0 {
        (stage, sent)
    } else {
        let (before, so_far) = sent_events(stage, sent, events.drop_last());
        (send_stage_after(before, events.last()), sent_after(before, events.last(), so_far))
    }
}

/// What happens while chunks are read and sent, all of which goes well.
pub open spec fn chunk_sends(chunks: Seq<u64>) -> Seq<SendEvent>
    decreases chunks.len(),
{
    if chunks.len() == 0 {
        Seq::empty()
    } else {
        chunk_sends(chunks.drop_last()) + seq![SendEvent::Bytes(chunks.last()), SendEvent::Fine]
    }
}

proof fn lemma_sent_more(stage: SendStage, sent: nat, a: Seq<SendEvent>, b: Seq<SendEvent>)
    ensures
        sent_events(stage, sent, a + b) == ({
            let (then, so_far) = sent_events(stage, sent, a);
            sent_events(then, so_far, b)
        }),
    decreases b.len(),
{
    if b.len() == 0 {
        assert(a + b =~= a);
    } else {
        assert((a + b).drop_last() =~= a + b.drop_last());
        lemma_sent_more(stage, sent, a, b.drop_last());
    }
}

proof fn lemma_chunks_sent(sent: nat, chunks: Seq<u64>)
    requires
        forall|i: int| 0 <= i < chunks.len() ==> #[trigger] chunks[i] > 0,
    ensures
        sent_events(SendStage::Read, sent, chunk_sends(chunks)) == (SendStage::Read, sent + chunks_total(chunks)),
    decreases chunks.len(),
{
    reveal_with_fuel(sent_events, 3);
    if chunks.len() > 0 {
        let init = chunk_sends(chunks.drop_last());
        let two = seq![SendEvent::Bytes(chunks.last()), SendEvent::Fine];
        assert forall|i: int| 0 <= i < chunks.drop_last().len() implies #[trigger] chunks.drop_last()[i] > 0 by {
            assert(chunks[i] > 0);
        }
        assert(chunks[chunks.len() - 1] > 0);
        lemma_chunks_sent(sent, chunks.drop_last());
        lemma_sent_more(SendStage::Read, sent, init, two);
        assert(two.drop_last() =~= seq![SendEvent::Bytes(chunks.last())]);
        assert(two.drop_last().drop_last() =~= Seq::empty());
    }
}

/// An item whose file can be opened, all of whose chunks are read and go out, is sent once
/// nothing more is read, and as much counts as sent as the chunks are, with what had been
/// sent before.
pub proof fn law_all_chunks_go_out(sent: nat, chunks: Seq<u64>)
    requires
        forall|i: int| 0 <= i < chunks.len() ==> #[trigger] chunks[i] > 0,
    ensures
        ({
            let opened = seq![SendEvent::Fine, SendEvent::Fine, SendEvent::Fine];
            sent_events(SendStage::Open, sent, opened + chunk_sends(chunks) + seq![SendEvent::Bytes(0)]) == (
                SendStage::Done,
                sent + chunks_total(chunks),
            )
        }),
{
    let fine = SendEvent::Fine;
    let opened = seq![fine, fine, fine];
    let closed = seq![SendEvent::Bytes(0)];
    lemma_sent_more(SendStage::Open, sent, opened + chunk_sends(chunks), closed);
    lemma_sent_more(SendStage::Open, sent, opened, chunk_sends(chunks));
    lemma_one_send(SendStage::Open, sent, opened);
    assert(opened.drop_first() =~= seq![fine, fine]);
    lemma_one_send(SendStage::WriteRequest, sent, seq![fine, fine]);
    assert(seq![fine, fine].drop_first() =~= seq![fine]);
    lemma_one_send(SendStage::WriteHeader, sent, seq![fine]);
    assert(seq![fine].drop_first() =~= Seq::empty());
    lemma_chunks_sent(sent, chunks);
    lemma_one_send(SendStage::Read, sent + chunks_total(chunks), closed);
    assert(closed.drop_first() =~= Seq::empty());
}

proof fn lemma_one_send(stage: SendStage, sent: nat, events: Seq<SendEvent>)
    requires
        events.len() > 0,
    ensures
        sent_events(stage, sent, events) == sent_events(
            send_stage_after(stage, events[0]),
            sent_after(stage, events[0], sent),
            events.drop_first(),
        ),
{
    let one = seq![events[0]];
    assert(one + events.drop_first() =~= events);
    lemma_sent_more(stage, sent, one, events.drop_first());
    assert(one.drop_last() =~= Seq::empty());
    assert(sent_events(stage, sent, one.drop_last()) == (stage, sent));
    assert(one.last() == events[0]);
}

/// Where a step of sending does not go well the item fails, and the error says what went
/// wrong: the file may not be opened, is not there or cannot be opened, the stream, the
/// disk, or that the transfer was stopped. Once sending has ended nothing changes.
pub proof fn law_sending_fails(stage: SendStage, event: SendEvent, sent: nat)
    ensures
        ({
            let next = send_stage_after(stage, event);
            let stream = stage == SendStage::WriteRequest || stage == SendStage::WriteHeader || stage
                == SendStage::WriteChunk;
            &&& stream && event != SendEvent::Fine ==> next == SendStage::Failed(TransferItemError::StreamError)
            &&& stage == SendStage::Open && event == SendEvent::PermissionDenied ==> next == SendStage::Failed(
                TransferItemError::FileOpenPermissionDenied,
            )
            &&& stage == SendStage::Open && event == SendEvent::NotFound ==> next == SendStage::Failed(
                TransferItemError::FileNotFound,
            )
            &&& stage == SendStage::Open && event == SendEvent::Wrong ==> next == SendStage::Failed(
                TransferItemError::OpenFail,
            )
            &&& stage == SendStage::Read && event == SendEvent::Cancelled ==> next == SendStage::Failed(
                TransferItemError::Terminated,
            )
            &&& stage == SendStage::Read && event == SendEvent::Wrong ==> next == SendStage::Failed(
                TransferItemError::FileIOError,
            )
            &&& stage == SendStage::Done || stage is Failed ==> next == stage
            &&& stage != SendStage::Read || !(event is Bytes) ==> sent_after(stage, event, sent) == sent
        }),
{
}

/// While an item is not complete it stands beside the place that it goes to, under the
/// name of that place with `.NectanLock` behind it.
pub proof fn law_lock_is_beside(root: Seq<Seq<u8>>, path: Seq<Seq<u8>>)
    ensures
        ({
            let output = output_parts(root, path);
            let lock = lock_parts(root, path);
            let suffix = vstd::utf8::encode_utf8(".NectanLock"@);
            &&& output.len() > root.len() ==> lock.len() == output.len() && lock.drop_last() == output.drop_last()
                && lock.last() == output.last() + suffix
            &&& output.len() == root.len() ==> lock == root.push(suffix)
        }),
{
    law_output_stays_inside(root, path);
    let output = output_parts(root, path);
    let lock = lock_parts(root, path);
    assert(output.len() == root.len() + normal_parts(path).len());
    if output.len() > root.len() {
        assert(lock.drop_last() =~= output.drop_last());
    }
}

} // verus!
