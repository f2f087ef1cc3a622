//! The download of one piece from one peer, as a state machine: it is told
//! what happened on the connection, and says what to do next.

use vstd::prelude::*;
use vstd::slice::{slice_subrange, slice_to_vec};
use crate::wire::{
    frame_of, interested_frame, interested_message, peer_id_of, request_frame, request_message,
    HandShake, MessageView, PeerMessage, ProtocolError,
};

verus! {

/// The size of a block, the unit in which a piece is asked for: 16 KiB.
pub const BLOCK_SIZE: u32 = 16384;

/// How far a download has come.
#[derive(Debug, Clone, Copy, PartialEq, Eq)]
pub enum Phase {
    /// The connection stands and nothing has been sent.
    Connected,
    /// The handshake is on its way, or the peer's reply is awaited.
    Handshaking,
    /// The peer's first message, its bitfield, is awaited.
    AwaitingBitfield,
    /// The message `interested` is on its way.
    SendingInterested,
    /// The peer's second message, its unchoke, is awaited.
    AwaitingUnchoke,
    /// A request is on its way, or its block is awaited.
    Downloading,
    /// The piece is complete.
    Done,
}

/// What happened on the connection.
#[derive(Debug, PartialEq, Eq)]
pub enum Event {
    /// The connection has been made.
    Start,
    /// The bytes that were to be sent have been written.
    Sent,
    /// The peer's handshake reply has been read.
    Handshake(Vec<u8>),
    /// The peer's next frame has been read: its length prefix and its body.
    Message(Vec<u8>),
}

/// What to do next on the connection.
#[derive(Debug, PartialEq, Eq)]
pub enum Action {
    /// Write these bytes, then report `Sent`.
    Send(Vec<u8>),
    /// Read the 68 bytes of the peer's handshake, then report them.
    ReceiveHandshake,
    /// Read the next frame, the four bytes of its length prefix and as many
    /// bytes of body as they give, then report what was read.
    ReceiveMessage,
    /// Nothing: the piece is complete.
    Finish,
}

/// An event as a mathematical value.
pub enum EventView {
    Start,
    Sent,
    Handshake(Seq<u8>),
    Message(Seq<u8>),
}

/// An action as a mathematical value.
pub enum ActionView {
    Send(Seq<u8>),
    ReceiveHandshake,
    ReceiveMessage,
    Finish,
}

/// A download as a mathematical value.
pub struct DownloadView {
    pub phase: Phase,
    pub handshake: Seq<u8>,
    pub piece_index: u32,
    pub piece_length: u32,
    pub blocks: nat,
    pub piece: Seq<u8>,
    pub peer_id: Seq<u8>,
}

/// How far a download has come, in numbers: its phase, the length of the
/// piece, and how many blocks have arrived.
#[derive(Debug, Clone, Copy)]
struct Progress {
    phase: Phase,
    piece_length: u32,
    blocks: u32,
}

/// The download of one piece from one peer.
#[derive(Debug)]
pub struct Download {
    progress: Progress,
    handshake: Vec<u8>,
    piece_index: u32,
    piece: Vec<u8>,
    peer_id: Vec<u8>,
}

impl View for Event {
    type V = EventView;

    open spec fn view(&self) -> EventView {
        match self {
            Event::Start => EventView::Start,
            Event::Sent => EventView::Sent,
            Event::Handshake(reply) => EventView::Handshake(reply@),
            Event::Message(body) => EventView::Message(body@),
        }
    }
}

impl View for Action {
    type V = ActionView;

    open spec fn view(&self) -> ActionView {
        match self {
            Action::Send(bytes) => ActionView::Send(bytes@),
            Action::ReceiveHandshake => ActionView::ReceiveHandshake,
            Action::ReceiveMessage => ActionView::ReceiveMessage,
            Action::Finish => ActionView::Finish,
        }
    }
}

impl View for Download {
    type V = DownloadView;

    closed spec fn view(&self) -> DownloadView {
        DownloadView {
            phase: self.progress.phase,
            handshake: self.handshake@,
            piece_index: self.piece_index,
            piece_length: self.progress.piece_length,
            blocks: self.progress.blocks as nat,
            piece: self.piece@,
            peer_id: self.peer_id@,
        }
    }
}

/// The message that a frame holds, the frame being all that was read.
pub open spec fn message_in(frame: Seq<u8>) -> Result<MessageView, ProtocolError> {
    match frame_of(frame) {
        Err(e) => Err(e),
        Ok((message, rest)) => if rest.len() == 0 {
            Ok(message)
        } else {
            Err(ProtocolError::UnexpectedEvent)
        },
    }
}

/// The number of blocks in which a piece of `piece_length` bytes is asked for.
pub open spec fn block_count(piece_length: u32) -> nat {
    ((piece_length + BLOCK_SIZE - 1) / (BLOCK_SIZE as int)) as nat
}

/// The offset of block `k` within its piece.
pub open spec fn block_begin(k: nat) -> int {
    k * BLOCK_SIZE
}

/// The length of block `k` of a piece of `piece_length` bytes: 16 KiB, or
/// what the piece has left where that is less.
pub open spec fn block_length(piece_length: u32, k: nat) -> int {
    if piece_length - block_begin(k) < BLOCK_SIZE {
        piece_length - block_begin(k)
    } else {
        BLOCK_SIZE as int
    }
}

/// The frame that asks for the block that is due.
pub open spec fn block_request(download: DownloadView) -> Seq<u8> {
    request_message(
        download.piece_index,
        block_begin(download.blocks) as u32,
        block_length(download.piece_length, download.blocks) as u32,
    )
}

/// A download that has not begun: of piece `piece_index`, which is
/// `piece_length` bytes long, opened with the record `handshake`.
pub open spec fn initial(handshake: Seq<u8>, piece_index: u32, piece_length: u32) -> DownloadView {
    DownloadView {
        phase: Phase::Connected,
        handshake,
        piece_index,
        piece_length,
        blocks: 0,
        piece: Seq::empty(),
        peer_id: Seq::empty(),
    }
}

/// The download after an event, and what to do next.
///
/// The handshake is sent and the peer's reply read, of which the peer id is
/// kept. Then one message is read and dropped, `interested` is sent, and one
/// more message is read and dropped. Then the blocks are asked for one at a
/// time, each at the offset where the last one ended; each answer must be a
/// piece message, whose block goes to the end of the piece, whatever index,
/// offset and length it has. The piece is not held against its digest. An
/// event that does not answer the last action is an error, and so is a frame
/// that is not whole or whose message cannot be read.
pub open spec fn next(download: DownloadView, event: EventView) -> Result<
    (DownloadView, ActionView),
    ProtocolError,
> {
    match (download.phase, event) {
        (Phase::Connected, EventView::Start) => Ok(
            (
                DownloadView { phase: Phase::Handshaking, ..download },
                ActionView::Send(download.handshake),
            ),
        ),
        (Phase::Handshaking, EventView::Sent) => Ok((download, ActionView::ReceiveHandshake)),
        (Phase::Handshaking, EventView::Handshake(reply)) => if reply.len() != 68 {
            Err(ProtocolError::ShortHandshake)
        } else {
            Ok(
                (
                    DownloadView {
                        phase: Phase::AwaitingBitfield,
                        peer_id: peer_id_of(reply),
                        ..download
                    },
                    ActionView::ReceiveMessage,
                ),
            )
        },
        (Phase::AwaitingBitfield, EventView::Message(frame)) => match message_in(frame) {
            Err(e) => Err(e),
            Ok(_) => Ok(
                (
                    DownloadView { phase: Phase::SendingInterested, ..download },
                    ActionView::Send(interested_message()),
                ),
            ),
        },
        (Phase::SendingInterested, EventView::Sent) => Ok(
            (
                DownloadView { phase: Phase::AwaitingUnchoke, ..download },
                ActionView::ReceiveMessage,
            ),
        ),
        (Phase::AwaitingUnchoke, EventView::Message(frame)) => match message_in(frame) {
            Err(e) => Err(e),
            Ok(_) => if download.piece_length == 0 {
                Ok((DownloadView { phase: Phase::Done, ..download }, ActionView::Finish))
            } else {
                Ok(
                    (
                        DownloadView { phase: Phase::Downloading, ..download },
                        ActionView::Send(block_request(download)),
                    ),
                )
            },
        },
        (Phase::Downloading, EventView::Sent) => Ok((download, ActionView::ReceiveMessage)),
        (Phase::Downloading, EventView::Message(frame)) => match message_in(frame) {
            Err(e) => Err(e),
            Ok(MessageView::Piece { index, begin, block }) => {
                let grown = DownloadView {
                    blocks: download.blocks + 1,
                    piece: download.piece + block,
                    ..download
                };
                if grown.blocks == block_count(download.piece_length) {
                    Ok((DownloadView { phase: Phase::Done, ..grown }, ActionView::Finish))
                } else {
                    Ok((grown, ActionView::Send(block_request(grown))))
                }
            },
            Ok(_) => Err(ProtocolError::InvalidResponse),
        },
        _ => Err(ProtocolError::UnexpectedEvent),
    }
}

/// The blocks of a piece follow one another without a gap and end where the
/// piece ends, and none is empty or longer than 16 KiB.
pub proof fn lemma_blocks_tile_piece(piece_length: u32, k: nat)
    requires
        k < block_count(piece_length),
    ensures
        0 < block_length(piece_length, k) <= BLOCK_SIZE,
        block_begin(k) + block_length(piece_length, k) <= piece_length,
        k + 1 < block_count(piece_length) ==> block_length(piece_length, k) == BLOCK_SIZE
            && block_begin(k) + block_length(piece_length, k) == block_begin(k + 1),
        k + 1 == block_count(piece_length) ==> block_begin(k) + block_length(piece_length, k)
            == piece_length,
{
}

impl Progress {
    /// Whether `blocks` blocks can have arrived in `phase`: none before the
    /// first is asked for, all once the piece is complete, and not yet all in
    /// between.
    spec fn in_step(phase: Phase, piece_length: u32, blocks: u32) -> bool {
        match phase {
            Phase::Downloading => blocks < block_count(piece_length),
            Phase::Done => blocks == block_count(piece_length),
            _ => blocks == 0,
        }
    }

    #[verifier::type_invariant]
    spec fn blocks_in_step(&self) -> bool {
        Progress::in_step(self.phase, self.piece_length, self.blocks)
    }

    /// The progress of a download that has not begun.
    fn new(piece_length: u32) -> (res: Progress)
        ensures
            res.phase == Phase::Connected,
            res.piece_length == piece_length,
            res.blocks == 0,
    {
        Progress { phase: Phase::Connected, piece_length, blocks: 0 }
    }

    /// The same progress in another phase.
    fn entering(self, phase: Phase) -> (res: Progress)
        requires
            Progress::in_step(phase, self.piece_length, self.blocks),
        ensures
            res.phase == phase,
            res.piece_length == self.piece_length,
            res.blocks == self.blocks,
    {
        Progress { phase, piece_length: self.piece_length, blocks: self.blocks }
    }

    /// The progress after one more block has arrived: done where it was the
    /// last one.
    fn block_arrived(self) -> (res: Progress)
        requires
            self.phase == Phase::Downloading,
        ensures
            res.piece_length == self.piece_length,
            res.blocks == self.blocks + 1,
            res.phase == if self.blocks + 1 == block_count(self.piece_length) {
                Phase::Done
            } else {
                Phase::Downloading
            },
    {
        proof {
            use_type_invariant(&self);
        }
        let count: u64 = (self.piece_length as u64 + BLOCK_SIZE as u64 - 1) / (BLOCK_SIZE as u64);
        let blocks: u32 = self.blocks + 1;
        let phase = if blocks as u64 == count {
            Phase::Done
        } else {
            Phase::Downloading
        };
        Progress { phase, piece_length: self.piece_length, blocks }
    }

    /// Where the block that is due begins, and how long it is.
    fn block_due(&self) -> (res: (u32, u32))
        requires
            self.blocks < block_count(self.piece_length),
        ensures
            res.0 == block_begin(self.blocks as nat),
            res.1 == block_length(self.piece_length, self.blocks as nat),
    {
        let begin: u32 = self.blocks * BLOCK_SIZE;
        let left: u32 = self.piece_length - begin;
        let length: u32 = if left < BLOCK_SIZE {
            left
        } else {
            BLOCK_SIZE
        };
        (begin, length)
    }
}

/// Reads the message that a frame holds, the frame being all that was read.
fn read_frame(frame: &[u8]) -> (res: Result<PeerMessage, ProtocolError>)
    ensures
        match message_in(frame@) {
            Ok(message) => res matches Ok(found) && found@ == message,
            Err(e) => res matches Err(err) && err == e,
        },
{
    match PeerMessage::read_message(frame) {
        Err(e) => Err(e),
        Ok((message, rest)) => if rest.len() == 0 {
            Ok(message)
        } else {
            Err(ProtocolError::UnexpectedEvent)
        },
    }
}

impl Download {
    /// A download of piece `piece_index`, which is `piece_length` bytes long,
    /// on a connection that will be opened with `handshake`.
    pub fn new(handshake: &HandShake, piece_index: u32, piece_length: u32) -> (res: Download)
        ensures
            res@ == initial(handshake.wire_bytes(), piece_index, piece_length),
    {
        Download {
            progress: Progress::new(piece_length),
            handshake: handshake.as_bytes(),
            piece_index,
            piece: Vec::new(),
            peer_id: Vec::new(),
        }
    }

    /// How far the download has come.
    pub fn phase(&self) -> (res: Phase)
        ensures
            res == self@.phase,
    {
        self.progress.phase
    }

    /// The bytes of the piece that have arrived: the blocks one after another.
    pub fn piece(&self) -> (res: &Vec<u8>)
        ensures
            res@ == self@.piece,
    {
        &self.piece
    }

    /// The peer id of the remote side; empty until its handshake has been read.
    pub fn peer_id(&self) -> (res: &Vec<u8>)
        ensures
            res@ == self@.peer_id,
    {
        &self.peer_id
    }

    /// The frame that asks for the block that is due.
    fn request(&self) -> (res: Vec<u8>)
        requires
            self.progress.blocks < block_count(self.progress.piece_length),
        ensures
            res@ == block_request(self@),
    {
        let (begin, length) = self.progress.block_due();
        request_frame(self.piece_index, begin, length)
    }

    /// Takes the download one step on: it is told what happened on the
    /// connection, and says what to do next. An error leaves it as it was.
    pub fn step(&mut self, event: Event) -> (res: Result<Action, ProtocolError>)
        ensures
            match next(old(self)@, event@) {
                Ok((download, action)) => {
                    &&& res matches Ok(found) && found@ == action
                    &&& final(self)@ == download
                },
                Err(e) => res matches Err(err) && err == e && final(self)@ == old(self)@,
            },
    {
        proof {
            use_type_invariant(&self.progress);
        }
        match event {
            Event::Start => match self.progress.phase {
                Phase::Connected => {
                    self.progress = self.progress.entering(Phase::Handshaking);
                    Ok(Action::Send(slice_to_vec(self.handshake.as_slice())))
                },
                _ => Err(ProtocolError::UnexpectedEvent),
            },
            Event::Sent => match self.progress.phase {
                Phase::Handshaking => Ok(Action::ReceiveHandshake),
                Phase::SendingInterested => {
                    self.progress = self.progress.entering(Phase::AwaitingUnchoke);
                    Ok(Action::ReceiveMessage)
                },
                Phase::Downloading => Ok(Action::ReceiveMessage),
                _ => Err(ProtocolError::UnexpectedEvent),
            },
            Event::Handshake(reply) => match self.progress.phase {
                Phase::Handshaking => {
                    if reply.len() != 68 {
                        return Err(ProtocolError::ShortHandshake);
                    }
                    self.peer_id = slice_to_vec(slice_subrange(reply.as_slice(), 48, 68));
                    self.progress = self.progress.entering(Phase::AwaitingBitfield);
                    Ok(Action::ReceiveMessage)
                },
                _ => Err(ProtocolError::UnexpectedEvent),
            },
            Event::Message(frame) => match self.progress.phase {
                Phase::AwaitingBitfield => match read_frame(frame.as_slice()) {
                    Err(e) => Err(e),
                    Ok(_) => {
                        self.progress = self.progress.entering(Phase::SendingInterested);
                        Ok(Action::Send(interested_frame()))
                    },
                },
                Phase::AwaitingUnchoke => match read_frame(frame.as_slice()) {
                    Err(e) => Err(e),
                    Ok(_) => {
                        if self.progress.piece_length == 0 {
                            self.progress = self.progress.entering(Phase::Done);
                            Ok(Action::Finish)
                        } else {
                            self.progress = self.progress.entering(Phase::Downloading);
                            Ok(Action::Send(self.request()))
                        }
                    },
                },
                Phase::Downloading => match read_frame(frame.as_slice()) {
                    Err(e) => Err(e),
                    Ok(PeerMessage::Piece { index, begin, block }) => {
                        let mut block = block;
                        self.progress = self.progress.block_arrived();
                        self.piece.append(&mut block);
                        match self.progress.phase {
                            Phase::Done => Ok(Action::Finish),
                            _ => Ok(Action::Send(self.request())),
                        }
                    },
                    Ok(_) => Err(ProtocolError::InvalidResponse),
                },
                _ => Err(ProtocolError::UnexpectedEvent),
            },
        }
    }
}

/// A run after one more event: the download has taken one more step, and
/// the action it asked for is the last of the actions.
pub open spec fn then(
    so_far: Result<(DownloadView, Seq<ActionView>), ProtocolError>,
    event: EventView,
) -> Result<(DownloadView, Seq<ActionView>), ProtocolError> {
    match so_far {
        Err(e) => Err(e),
        Ok((before, actions)) => match next(before, event) {
            Err(e) => Err(e),
            Ok((after, action)) => Ok((after, actions.push(action))),
        },
    }
}

/// The download after the events, one after another, and the actions that it
/// asked for on the way.
pub open spec fn run(download: DownloadView, events: Seq<EventView>) -> Result<
    (DownloadView, Seq<ActionView>),
    ProtocolError,
>
    decreases events.len(),
{
    if events.len() == 0 {
        Ok((download, Seq::empty()))
    } else {
        then(run(download, events.drop_last()), events.last())
    }
}

/// What happens on a connection up to the first request: the connection is
/// made, the handshake written and answered with `reply`, the message `first`
/// read, `interested` written, and the message `second` read.
pub open spec fn opening(reply: Seq<u8>, first: Seq<u8>, second: Seq<u8>) -> Seq<EventView> {
    seq![
        EventView::Start,
        EventView::Sent,
        EventView::Handshake(reply),
        EventView::Message(first),
        EventView::Sent,
        EventView::Message(second),
    ]
}

/// What happens on a connection while the blocks are fetched: each request is
/// written and answered with the next of `frames`.
pub open spec fn exchanges(frames: Seq<Seq<u8>>) -> Seq<EventView>
    decreases frames.len(),
{
    if frames.len() == 0 {
        Seq::empty()
    } else {
        exchanges(frames.drop_last()) + seq![EventView::Sent, EventView::Message(frames.last())]
    }
}

/// Whether a frame holds a piece message and nothing more.
pub open spec fn is_piece(frame: Seq<u8>) -> bool {
    message_in(frame) matches Ok(MessageView::Piece { .. })
}

/// The blocks of the piece messages in `frames`, one after another. The block
/// of a piece message follows the 13 bytes of its length prefix, its id, its
/// index and its offset.
pub open spec fn received(frames: Seq<Seq<u8>>) -> Seq<u8>
    decreases frames.len(),
{
    if frames.len() == 0 {
        Seq::empty()
    } else {
        received(frames.drop_last()) + frames.last().skip(13)
    }
}

/// The frame that asks for block `k` of piece `piece_index`, which is
/// `piece_length` bytes long.
pub open spec fn request_of(piece_index: u32, piece_length: u32, k: nat) -> Seq<u8> {
    request_message(piece_index, block_begin(k) as u32, block_length(piece_length, k) as u32)
}

/// The actions of a download up to the point where `m` blocks have arrived:
/// the handshake is sent and its reply read, one message read, `interested`
/// sent and one more message read; then each block is asked for and its
/// answer read; then the next block is asked for, or the download finishes
/// where there is none.
pub open spec fn actions_after(
    handshake: Seq<u8>,
    piece_index: u32,
    piece_length: u32,
    m: nat,
) -> Seq<ActionView>
    decreases m,
{
    let then = if m == block_count(piece_length) {
        ActionView::Finish
    } else {
        ActionView::Send(request_of(piece_index, piece_length, m))
    };
    if m == 0 {
        seq![
            ActionView::Send(handshake),
            ActionView::ReceiveHandshake,
            ActionView::ReceiveMessage,
            ActionView::Send(interested_message()),
            ActionView::ReceiveMessage,
            then,
        ]
    } else {
        actions_after(handshake, piece_index, piece_length, (m - 1) as nat).push(
            ActionView::ReceiveMessage,
        ).push(then)
    }
}

/// The download at the point where `m` blocks have arrived, the last of them
/// the last of `frames`.
pub open spec fn download_after(
    handshake: Seq<u8>,
    piece_index: u32,
    piece_length: u32,
    reply: Seq<u8>,
    frames: Seq<Seq<u8>>,
) -> DownloadView {
    DownloadView {
        phase: if frames.len() == block_count(piece_length) {
            Phase::Done
        } else {
            Phase::Downloading
        },
        handshake,
        piece_index,
        piece_length,
        blocks: frames.len(),
        piece: received(frames),
        peer_id: peer_id_of(reply),
    }
}

/// A run of events and one more is the run of the events, then the one more.
pub proof fn lemma_run_push(download: DownloadView, events: Seq<EventView>, event: EventView)
    ensures
        run(download, events.push(event)) == then(run(download, events), event),
{
    assert(events.push(event).drop_last() =~= events);
}

/// The run up to the peer's handshake reply.
proof fn lemma_run_handshake(start: DownloadView, reply: Seq<u8>)
    requires
        start.phase == Phase::Connected,
        reply.len() == 68,
    ensures
        run(start, seq![EventView::Start, EventView::Sent, EventView::Handshake(reply)]) == Ok::<
            (DownloadView, Seq<ActionView>),
            ProtocolError,
        >(
            (
                DownloadView {
                    phase: Phase::AwaitingBitfield,
                    peer_id: peer_id_of(reply),
                    ..start
                },
                seq![
                    ActionView::Send(start.handshake),
                    ActionView::ReceiveHandshake,
                    ActionView::ReceiveMessage,
                ],
            ),
        ),
{
    let none = Seq::<EventView>::empty();
    lemma_run_push(start, none, EventView::Start);
    lemma_run_push(start, none.push(EventView::Start), EventView::Sent);
    lemma_run_push(
        start,
        none.push(EventView::Start).push(EventView::Sent),
        EventView::Handshake(reply),
    );
    assert(none.push(EventView::Start).push(EventView::Sent).push(EventView::Handshake(reply))
        =~= seq![EventView::Start, EventView::Sent, EventView::Handshake(reply)]);
    let a1 = Seq::<ActionView>::empty().push(ActionView::Send(start.handshake));
    assert(a1.push(ActionView::ReceiveHandshake).push(ActionView::ReceiveMessage) =~= seq![
        ActionView::Send(start.handshake),
        ActionView::ReceiveHandshake,
        ActionView::ReceiveMessage,
    ]);
}

/// The run up to the first request.
proof fn lemma_run_opening(start: DownloadView, reply: Seq<u8>, first: Seq<u8>, second: Seq<u8>)
    requires
        start.phase == Phase::Connected,
        start.blocks == 0,
        reply.len() == 68,
        message_in(first) is Ok,
        message_in(second) is Ok,
    ensures
        run(start, opening(reply, first, second)) == Ok::<
            (DownloadView, Seq<ActionView>),
            ProtocolError,
        >(
            (
                DownloadView {
                    phase: if start.piece_length == 0 {
                        Phase::Done
                    } else {
                        Phase::Downloading
                    },
                    peer_id: peer_id_of(reply),
                    ..start
                },
                actions_after(start.handshake, start.piece_index, start.piece_length, 0),
            ),
        ),
{
    let shaken = seq![EventView::Start, EventView::Sent, EventView::Handshake(reply)];
    lemma_run_handshake(start, reply);
    lemma_run_push(start, shaken, EventView::Message(first));
    lemma_run_push(start, shaken.push(EventView::Message(first)), EventView::Sent);
    lemma_run_push(
        start,
        shaken.push(EventView::Message(first)).push(EventView::Sent),
        EventView::Message(second),
    );
    assert(shaken.push(EventView::Message(first)).push(EventView::Sent).push(
        EventView::Message(second),
    ) =~= opening(reply, first, second));
    let a3 = seq![
        ActionView::Send(start.handshake),
        ActionView::ReceiveHandshake,
        ActionView::ReceiveMessage,
    ];
    let a4 = a3.push(ActionView::Send(interested_message()));
    let a5 = a4.push(ActionView::ReceiveMessage);
    let last = actions_after(start.handshake, start.piece_index, start.piece_length, 0).last();
    assert(a5.push(last) =~= actions_after(
        start.handshake,
        start.piece_index,
        start.piece_length,
        0,
    ));
}

/// A download runs as the protocol says, whatever the length of the piece.
/// With a peer whose handshake reply has 68 bytes, whose first two messages
/// can be read and that answers every request with a piece message, the
/// download asks for the blocks in order, each where the last one ended and
/// of 16 KiB or what the piece has left, and for no block more; once as many
/// blocks have arrived as the piece has, it is done, and its piece is the
/// blocks that arrived, one after another.
pub proof fn lemma_download_runs(
    handshake: Seq<u8>,
    piece_index: u32,
    piece_length: u32,
    reply: Seq<u8>,
    first: Seq<u8>,
    second: Seq<u8>,
    frames: Seq<Seq<u8>>,
)
    requires
        reply.len() == 68,
        message_in(first) is Ok,
        message_in(second) is Ok,
        frames.len() <= block_count(piece_length),
        forall|k: int| 0 <= k < frames.len() ==> is_piece(#[trigger] frames[k]),
    ensures
        run(
            initial(handshake, piece_index, piece_length),
            opening(reply, first, second) + exchanges(frames),
        ) == Ok::<(DownloadView, Seq<ActionView>), ProtocolError>(
            (
                download_after(handshake, piece_index, piece_length, reply, frames),
                actions_after(handshake, piece_index, piece_length, frames.len()),
            ),
        ),
    decreases frames.len(),
{
    let start = initial(handshake, piece_index, piece_length);
    if frames.len() == 0 {
        lemma_run_opening(start, reply, first, second);
    } else {
        let front = frames.drop_last();
        let before = opening(reply, first, second) + exchanges(front);
        lemma_download_runs(handshake, piece_index, piece_length, reply, first, second, front);
        lemma_run_push(start, before, EventView::Sent);
        lemma_run_push(start, before.push(EventView::Sent), EventView::Message(frames.last()));
        assert(before.push(EventView::Sent).push(EventView::Message(frames.last()))
            =~= opening(reply, first, second) + exchanges(frames));
        let frame = frames.last();
        assert(frame_of(frame)->Ok_0.0->block =~= frame.skip(13));
    }
}

/// Where each block that arrives has the length that was asked for, the
/// piece has as many bytes as were asked for; the whole piece once all blocks
/// have arrived.
pub proof fn lemma_received_length(piece_length: u32, frames: Seq<Seq<u8>>)
    requires
        frames.len() <= block_count(piece_length),
        forall|k: int|
            0 <= k < frames.len() ==> (#[trigger] frames[k]).len() == 13 + block_length(
                piece_length,
                k as nat,
            ),
    ensures
        received(frames).len() == if frames.len() == block_count(piece_length) {
            piece_length as int
        } else {
            block_begin(frames.len())
        },
    decreases frames.len(),
{
    if frames.len() > 0 {
        let front = frames.drop_last();
        lemma_received_length(piece_length, front);
    }
}

} // verus!
