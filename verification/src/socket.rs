//! The decisions of the UDP socket that runs over a WebSocket.
//!
//! Sending a batch of datagrams alternates work on the WebSocket sink (wait
//! until it is ready, start a send, wait again, flush) with decisions about
//! what to do next. The decisions are the state machine [`SendBatch`]: the
//! caller performs each [`SendAction`] on the sink and feeds back what came
//! of it as a [`SinkEvent`]. The position within the batch survives between
//! calls, so that a batch interrupted by a sink that is not ready resumes
//! where it stopped.
//!
//! Receiving takes one frame from the WebSocket stream, insists that it is a
//! binary frame holding an inbound message, and copies the datagram into the
//! caller's buffer.

use vstd::prelude::*;
use crate::addr::SocketAddr;
use crate::message::{message_decoding, message_encoding, InboundMessage, OutboundMessage};
use crate::varint::WireError;

verus! {

/// A frame of the WebSocket connection.
#[derive(Debug, PartialEq, Eq)]
pub enum WsMessage {
    /// A text frame.
    Text(String),
    /// A binary frame.
    Binary(Vec<u8>),
    /// A closing frame.
    Close,
}

/// A datagram that the QUIC stack asks to send.
#[derive(Debug, PartialEq, Eq)]
pub struct Transmit {
    pub destination: SocketAddr,
    pub contents: Vec<u8>,
}

/// The binary frame that carries `transmit` to the relay: an outbound
/// message to its destination holding its contents.
pub fn transmit_to_message(transmit: &Transmit) -> (r: Result<WsMessage, WireError>)
    ensures
        r matches Ok(WsMessage::Binary(data)) && data@ == message_encoding(
            transmit.destination@,
            transmit.contents@,
        ),
{
    let mut contents: Vec<u8> = Vec::new();
    for i in 0..transmit.contents.len()
        invariant
            contents@ == transmit.contents@.subrange(0, i as int),
    {
        contents.push(transmit.contents[i]);
        assert(transmit.contents@.subrange(0, i + 1) =~= transmit.contents@.subrange(
            0,
            i as int,
        ).push(transmit.contents@[i as int]));
    }
    assert(transmit.contents@.subrange(0, transmit.contents@.len() as int) =~= transmit.contents@);
    let message = OutboundMessage { dst: transmit.destination, content: contents };
    match message.to_vec() {
        Ok(data) => Ok(WsMessage::Binary(data)),
        Err(e) => Err(e),
    }
}

/// Where a batch of sends stands within one call.
#[derive(Debug, Clone, Copy, PartialEq, Eq)]
pub enum SendStep {
    /// Waiting for the sink to be ready before the first send.
    AwaitReady,
    /// Waiting for the sink to accept the send of the transmit at the position.
    AwaitStarted,
    /// Waiting for the sink to be ready again after that send.
    AwaitSent,
    /// Waiting for the flush of the sink.
    AwaitFlushed,
    /// The call has finished.
    Done,
}

/// What came of the last action on the sink.
#[derive(Debug, Clone, Copy, PartialEq, Eq)]
pub enum SinkEvent {
    /// It completed.
    Ready,
    /// It cannot complete yet; the caller will be woken.
    Pending,
    /// It failed.
    Failed,
}

/// How a call that sends a batch ends.
#[derive(Debug, Clone, Copy, PartialEq, Eq)]
pub enum SendOutcome {
    /// The sink is not ready; the call is to be repeated later.
    Pending,
    /// The sink failed.
    Failed,
    /// All this many transmits were sent and flushed.
    Sent(usize),
}

/// What the caller is to do next.
#[derive(Debug, Clone, Copy, PartialEq, Eq)]
pub enum SendAction {
    /// Poll the sink for readiness.
    PollReady,
    /// Start sending the message of the transmit at this index.
    StartSend(usize),
    /// Poll the flush of the sink.
    PollFlush,
    /// End the call with this outcome.
    Finish(SendOutcome),
}

/// One call that sends a batch of `total` transmits, starting at
/// `send_pos`, the position that an earlier interrupted call reached.
#[derive(Debug, Clone, Copy, PartialEq, Eq)]
pub struct SendBatch {
    pub send_pos: usize,
    pub total: usize,
    pub step: SendStep,
}

impl SendBatch {
    /// While a send is under way, its position lies within the batch.
    pub open spec fn wf(self) -> bool {
        (self.step == SendStep::AwaitStarted || self.step == SendStep::AwaitSent) ==> self.send_pos
            < self.total
    }
}

/// The step after a ready sink at position `pos`: the next send if a
/// transmit is left, else the flush.
pub open spec fn next_send(pos: usize, total: usize) -> (SendBatch, SendAction) {
    if pos < total {
        (
            SendBatch { send_pos: pos, total, step: SendStep::AwaitStarted },
            SendAction::StartSend(pos),
        )
    } else {
        (SendBatch { send_pos: pos, total, step: SendStep::AwaitFlushed }, SendAction::PollFlush)
    }
}

/// The call ends with `outcome`, the position left as it is.
pub open spec fn finish(b: SendBatch, outcome: SendOutcome) -> (SendBatch, SendAction) {
    (SendBatch { step: SendStep::Done, ..b }, SendAction::Finish(outcome))
}

/// How a batch moves on when the last action ended with `ev`.
pub open spec fn send_transition(b: SendBatch, ev: SinkEvent) -> (SendBatch, SendAction) {
    match b.step {
        SendStep::AwaitReady => match ev {
            SinkEvent::Ready => next_send(b.send_pos, b.total),
            SinkEvent::Pending => finish(b, SendOutcome::Pending),
            SinkEvent::Failed => finish(b, SendOutcome::Failed),
        },
        SendStep::AwaitStarted => match ev {
            SinkEvent::Failed => finish(b, SendOutcome::Failed),
            _ => (SendBatch { step: SendStep::AwaitSent, ..b }, SendAction::PollReady),
        },
        SendStep::AwaitSent => match ev {
            SinkEvent::Ready => next_send((b.send_pos + 1) as usize, b.total),
            SinkEvent::Pending => finish(b, SendOutcome::Pending),
            SinkEvent::Failed => finish(b, SendOutcome::Failed),
        },
        SendStep::AwaitFlushed => match ev {
            SinkEvent::Ready => (
                SendBatch { send_pos: 0, total: b.total, step: SendStep::Done },
                SendAction::Finish(SendOutcome::Sent(b.total)),
            ),
            SinkEvent::Pending => finish(b, SendOutcome::Pending),
            SinkEvent::Failed => finish(b, SendOutcome::Failed),
        },
        SendStep::Done => (b, SendAction::Finish(SendOutcome::Failed)),
    }
}

impl SendBatch {
    /// Starts a call that sends a batch of `total` transmits from position
    /// `send_pos`; the first thing to do is to wait for the sink.
    pub fn begin(send_pos: usize, total: usize) -> (r: (SendBatch, SendAction))
        ensures
            r.0 == (SendBatch { send_pos, total, step: SendStep::AwaitReady }),
            r.1 == SendAction::PollReady,
            r.0.wf(),
    {
        (SendBatch { send_pos, total, step: SendStep::AwaitReady }, SendAction::PollReady)
    }

    /// Moves on after the last action ended with `ev`, and says what to do
    /// next. A send that has been started cannot be pending: the sink either
    /// accepts it or fails.
    pub fn step(&mut self, ev: SinkEvent) -> (action: SendAction)
        requires
            old(self).wf(),
            old(self).step != SendStep::Done,
            old(self).step == SendStep::AwaitStarted ==> ev != SinkEvent::Pending,
        ensures
            (*final(self), action) == send_transition(*old(self), ev),
            final(self).wf(),
            final(self).total == old(self).total,
            action matches SendAction::StartSend(i) ==> i == final(self).send_pos && i
                < final(self).total,
            action matches SendAction::Finish(SendOutcome::Sent(n)) ==> n == final(self).total
                && final(self).send_pos == 0,
            action matches SendAction::Finish(SendOutcome::Sent(_)) ==> old(self).step
                == SendStep::AwaitFlushed && ev == SinkEvent::Ready,
            ev == SinkEvent::Failed ==> action == SendAction::Finish(SendOutcome::Failed)
                && final(self).send_pos == old(self).send_pos && final(self).step == SendStep::Done,
            ev == SinkEvent::Pending ==> action == SendAction::Finish(SendOutcome::Pending)
                && final(self).send_pos == old(self).send_pos && final(self).step == SendStep::Done,
            action matches SendAction::StartSend(i) ==> ev == SinkEvent::Ready && (i
                == old(self).send_pos || i == old(self).send_pos + 1),
    {
        match self.step {
            SendStep::AwaitReady => match ev {
                SinkEvent::Ready => self.next_send(),
                SinkEvent::Pending => self.finish(SendOutcome::Pending),
                SinkEvent::Failed => self.finish(SendOutcome::Failed),
            },
            SendStep::AwaitStarted => match ev {
                SinkEvent::Failed => self.finish(SendOutcome::Failed),
                _ => {
                    self.step = SendStep::AwaitSent;
                    SendAction::PollReady
                },
            },
            SendStep::AwaitSent => match ev {
                SinkEvent::Ready => {
                    self.send_pos = self.send_pos + 1;
                    self.next_send()
                },
                SinkEvent::Pending => self.finish(SendOutcome::Pending),
                SinkEvent::Failed => self.finish(SendOutcome::Failed),
            },
            SendStep::AwaitFlushed => match ev {
                SinkEvent::Ready => {
                    self.send_pos = 0;
                    self.step = SendStep::Done;
                    SendAction::Finish(SendOutcome::Sent(self.total))
                },
                SinkEvent::Pending => self.finish(SendOutcome::Pending),
                SinkEvent::Failed => self.finish(SendOutcome::Failed),
            },
            SendStep::Done => SendAction::Finish(SendOutcome::Failed),
        }
    }

    fn next_send(&mut self) -> (action: SendAction)
        ensures
            (*final(self), action) == next_send(old(self).send_pos, old(self).total),
    {
        if self.send_pos < self.total {
            self.step = SendStep::AwaitStarted;
            SendAction::StartSend(self.send_pos)
        } else {
            self.step = SendStep::AwaitFlushed;
            SendAction::PollFlush
        }
    }

    fn finish(&mut self, outcome: SendOutcome) -> (action: SendAction)
        ensures
            (*final(self), action) == finish(*old(self), outcome),
    {
        self.step = SendStep::Done;
        SendAction::Finish(outcome)
    }
}

/// What the WebSocket stream yielded when polled for a frame.
#[derive(Debug, PartialEq, Eq)]
pub enum IncomingFrame {
    /// The stream has ended.
    Closed,
    /// The stream failed.
    Failed,
    /// A frame arrived.
    Frame(WsMessage),
}

/// Why receiving failed.
#[derive(Debug, Clone, Copy, PartialEq, Eq)]
pub enum RecvError {
    /// The WebSocket stream has ended ("stream closed", an unexpected end of
    /// file).
    StreamClosed,
    /// The WebSocket stream failed.
    Transport,
    /// A frame other than a binary one arrived ("expected binary message",
    /// invalid data).
    NotBinary,
    /// A binary frame arrived that holds no inbound message (invalid data).
    Malformed(WireError),
}

/// Where a received datagram came from and where it lies in the buffer: its
/// `len` bytes start the buffer, as one segment of `stride` bytes.
#[derive(Debug, Clone, Copy, PartialEq, Eq)]
pub struct RecvMeta {
    pub addr: SocketAddr,
    pub len: usize,
    pub stride: usize,
}

/// The inbound message that `frame` carries, or why there is none.
pub fn incoming_message(frame: IncomingFrame) -> (r: Result<InboundMessage, RecvError>)
    ensures
        match frame {
            IncomingFrame::Closed => r == Err::<InboundMessage, RecvError>(RecvError::StreamClosed),
            IncomingFrame::Failed => r == Err::<InboundMessage, RecvError>(RecvError::Transport),
            IncomingFrame::Frame(WsMessage::Binary(data)) => match message_decoding(data@) {
                Ok((a, c)) => r matches Ok(m) && m.src@ == a && m.content@ == c,
                Err(e) => r == Err::<InboundMessage, RecvError>(RecvError::Malformed(e)),
            },
            IncomingFrame::Frame(_) => r == Err::<InboundMessage, RecvError>(RecvError::NotBinary),
        },
{
    match frame {
        IncomingFrame::Closed => Err(RecvError::StreamClosed),
        IncomingFrame::Failed => Err(RecvError::Transport),
        IncomingFrame::Frame(WsMessage::Binary(data)) => match InboundMessage::from_bytes(
            data.as_slice(),
        ) {
            Ok(m) => Ok(m),
            Err(e) => Err(RecvError::Malformed(e)),
        },
        IncomingFrame::Frame(_) => Err(RecvError::NotBinary),
    }
}

/// Copies the datagram of `msg` to the start of `buf`, leaving the rest of
/// `buf` as it was, and describes it: it came from the sender of `msg` and is
/// one segment as long as the datagram.
pub fn deliver_datagram(msg: &InboundMessage, buf: &mut [u8]) -> (meta: RecvMeta)
    requires
        msg.content@.len() <= old(buf)@.len(),
    ensures
        final(buf)@ == msg.content@ + old(buf)@.subrange(
            msg.content@.len() as int,
            old(buf)@.len() as int,
        ),
        meta == (RecvMeta { addr: msg.src, len: msg.content@.len() as usize, stride: msg.content@.len() as usize }),
{
    let len = msg.content.len();
    for i in 0..len
        invariant
            len == msg.content@.len(),
            len <= buf@.len(),
            buf@.len() == old(buf)@.len(),
            forall|j: int| 0 <= j < i ==> buf@[j] == msg.content@[j],
            forall|j: int| len <= j < buf@.len() ==> buf@[j] == old(buf)@[j],
    {
        buf[i] = msg.content[i];
    }
    assert(buf@ =~= msg.content@ + old(buf)@.subrange(len as int, old(buf)@.len() as int));
    RecvMeta { addr: msg.src, len, stride: len }
}

/// A failing sink never yields success: whatever step a call is at, a
/// failure ends it as failed, with the position where it was.
pub proof fn lemma_failure_ends_call_as_failed(b: SendBatch)
    requires
        b.step != SendStep::Done,
    ensures
        send_transition(b, SinkEvent::Failed) == (
            SendBatch { send_pos: b.send_pos, total: b.total, step: SendStep::Done },
            SendAction::Finish(SendOutcome::Failed),
        ),
{
}

/// A sink that is not ready ends the call as pending, with the position
/// where it was, so that the next call resumes there.
pub proof fn lemma_pending_keeps_position(b: SendBatch)
    requires
        b.step != SendStep::Done,
        b.step != SendStep::AwaitStarted,
    ensures
        send_transition(b, SinkEvent::Pending) == (
            SendBatch { send_pos: b.send_pos, total: b.total, step: SendStep::Done },
            SendAction::Finish(SendOutcome::Pending),
        ),
{
}

/// A batch is reported sent only when the flush completes, and then as the
/// whole batch, with the position reset to 0.
pub proof fn lemma_success_only_after_flush(b: SendBatch, ev: SinkEvent)
    requires
        b.step != SendStep::Done,
    ensures
        ({
            let (b2, a) = send_transition(b, ev);
            (a is Finish && a->Finish_0 is Sent) <==> (b.step == SendStep::AwaitFlushed && ev
                == SinkEvent::Ready)
        }),
        b.step == SendStep::AwaitFlushed && ev == SinkEvent::Ready ==> send_transition(b, ev) == (
            SendBatch { send_pos: 0, total: b.total, step: SendStep::Done },
            SendAction::Finish(SendOutcome::Sent(b.total)),
        ),
{
}

/// The state and the actions after feeding the events `evs`, one by one, to
/// the batch `b`, until the call finishes.
pub open spec fn run_batch(b: SendBatch, evs: Seq<SinkEvent>) -> (SendBatch, Seq<SendAction>)
    decreases evs.len(),
{
    if evs.len() == 0 || b.step == SendStep::Done {
        (b, Seq::empty())
    } else {
        let (b1, a) = send_transition(b, evs[0]);
        let (b2, acts) = run_batch(b1, evs.drop_first());
        (b2, seq![a] + acts)
    }
}

/// `k` events that all say the sink completed the action.
pub open spec fn all_ready(k: nat) -> Seq<SinkEvent> {
    Seq::new(k, |i: int| SinkEvent::Ready)
}

/// The sends of the `k` transmits from position `p`, each followed by a wait
/// for the sink.
pub open spec fn sends_in_order(p: usize, k: nat) -> Seq<SendAction> {
    Seq::new(
        2 * k,
        |j: int|
            if j % 2 == 0 {
                SendAction::StartSend((p + j / 2) as usize)
            } else {
                SendAction::PollReady
            },
    )
}

proof fn lemma_run_from_started(pos: usize, n: usize)
    requires
        pos < n,
    ensures
        run_batch(
            SendBatch { send_pos: pos, total: n, step: SendStep::AwaitStarted },
            all_ready((2 * (n - pos) + 1) as nat),
        ) == (
            SendBatch { send_pos: 0, total: n, step: SendStep::Done },
            sends_in_order(pos, (n - pos) as nat).drop_first() + seq![
                SendAction::PollFlush,
                SendAction::Finish(SendOutcome::Sent(n)),
            ],
        ),
    decreases n - pos,
{
    let b0 = SendBatch { send_pos: pos, total: n, step: SendStep::AwaitStarted };
    let evs = all_ready((2 * (n - pos) + 1) as nat);
    let b1 = SendBatch { send_pos: pos, total: n, step: SendStep::AwaitSent };
    let evs1 = evs.drop_first();
    assert(evs1 =~= all_ready((2 * (n - pos)) as nat));
    let evs2 = evs1.drop_first();
    assert(evs2 =~= all_ready((2 * (n - pos) - 1) as nat));
    let tail = seq![SendAction::PollFlush, SendAction::Finish(SendOutcome::Sent(n))];
    let done = SendBatch { send_pos: 0, total: n, step: SendStep::Done };
    assert(send_transition(b0, SinkEvent::Ready) == (b1, SendAction::PollReady));
    if pos + 1 < n {
        let b2 = SendBatch { send_pos: (pos + 1) as usize, total: n, step: SendStep::AwaitStarted };
        assert(send_transition(b1, SinkEvent::Ready) == (b2, SendAction::StartSend((pos + 1) as usize)));
        lemma_run_from_started((pos + 1) as usize, n);
        assert(evs2 =~= all_ready((2 * (n - (pos + 1)) + 1) as nat));
        let rest = sends_in_order((pos + 1) as usize, (n - (pos + 1)) as nat).drop_first() + tail;
        assert(run_batch(b2, evs2) == (done, rest));
        assert(run_batch(b1, evs1) == (done, seq![SendAction::StartSend((pos + 1) as usize)] + rest));
        assert(run_batch(b0, evs) == (done, seq![SendAction::PollReady] + (seq![SendAction::StartSend((pos + 1) as usize)] + rest)));
        assert(seq![SendAction::PollReady] + (seq![SendAction::StartSend((pos + 1) as usize)] + rest)
            =~= sends_in_order(pos, (n - pos) as nat).drop_first() + tail);
    } else {
        let b2 = SendBatch { send_pos: (pos + 1) as usize, total: n, step: SendStep::AwaitFlushed };
        assert(send_transition(b1, SinkEvent::Ready) == (b2, SendAction::PollFlush));
        assert(evs2.len() == 1);
        let evs3 = evs2.drop_first();
        assert(send_transition(b2, SinkEvent::Ready) == (done, SendAction::Finish(SendOutcome::Sent(n))));
        assert(run_batch(done, evs3) == (done, Seq::<SendAction>::empty()));
        assert(run_batch(b2, evs2) == (done, seq![SendAction::Finish(SendOutcome::Sent(n))] + Seq::<SendAction>::empty()));
        assert(run_batch(b1, evs1) == (done, seq![SendAction::PollFlush] + (seq![SendAction::Finish(SendOutcome::Sent(n))] + Seq::<SendAction>::empty())));
        assert(seq![SendAction::PollReady] + (seq![SendAction::PollFlush] + (seq![SendAction::Finish(SendOutcome::Sent(n))] + Seq::<SendAction>::empty()))
            =~= sends_in_order(pos, (n - pos) as nat).drop_first() + tail);
    }
}

/// When the sink completes every action at once, a call that resumes a batch
/// of `n` transmits at position `p` sends each transmit from `p` on exactly
/// once, in order, waits for the sink after each, then flushes, reports all
/// `n` transmits sent, and resets the position to 0.
pub proof fn lemma_batch_when_always_ready(p: usize, n: usize)
    ensures
        ({
            let k: nat = if p < n {
                (n - p) as nat
            } else {
                0
            };
            run_batch(
                SendBatch { send_pos: p, total: n, step: SendStep::AwaitReady },
                all_ready(2 * k + 2),
            ) == (
                SendBatch { send_pos: 0, total: n, step: SendStep::Done },
                sends_in_order(p, k) + seq![
                    SendAction::PollFlush,
                    SendAction::Finish(SendOutcome::Sent(n)),
                ],
            )
        }),
{
    let k: nat = if p < n {
        (n - p) as nat
    } else {
        0
    };
    let b0 = SendBatch { send_pos: p, total: n, step: SendStep::AwaitReady };
    let evs = all_ready(2 * k + 2);
    let evs1 = evs.drop_first();
    let tail = seq![SendAction::PollFlush, SendAction::Finish(SendOutcome::Sent(n))];
    let done = SendBatch { send_pos: 0, total: n, step: SendStep::Done };
    if p < n {
        let b1 = SendBatch { send_pos: p, total: n, step: SendStep::AwaitStarted };
        assert(send_transition(b0, SinkEvent::Ready) == (b1, SendAction::StartSend(p)));
        assert(evs1 =~= all_ready((2 * (n - p) + 1) as nat));
        lemma_run_from_started(p, n);
        assert(run_batch(b0, evs) == (done, seq![SendAction::StartSend(p)] + (sends_in_order(p, k).drop_first() + tail)));
        assert(seq![SendAction::StartSend(p)] + (sends_in_order(p, k).drop_first() + tail) =~= sends_in_order(p, k) + tail);
    } else {
        let b1 = SendBatch { send_pos: p, total: n, step: SendStep::AwaitFlushed };
        assert(send_transition(b0, SinkEvent::Ready) == (b1, SendAction::PollFlush));
        let evs2 = evs1.drop_first();
        assert(evs2.len() == 0);
        assert(run_batch(done, evs2) == (done, Seq::<SendAction>::empty()));
        assert(run_batch(b1, evs1) == (done, seq![SendAction::Finish(SendOutcome::Sent(n))] + Seq::<SendAction>::empty()));
        assert(seq![SendAction::PollFlush] + (seq![SendAction::Finish(SendOutcome::Sent(n))] + Seq::<SendAction>::empty()) =~= sends_in_order(p, k) + tail);
    }
}

/// Whatever the sink does, a call never sends a transmit before the position
/// it resumed at or beyond the batch, it never moves the position back except
/// to reset it to 0 when it reports the batch sent, and its last action is
/// the only one that finishes it.
pub proof fn lemma_batch_sends_within_range(b: SendBatch, evs: Seq<SinkEvent>)
    requires
        b.wf(),
        b.step != SendStep::Done,
    ensures
        ({
            let (last, acts) = run_batch(b, evs);
            &&& last.total == b.total
            &&& forall|j: int|
                0 <= j < acts.len() ==> (#[trigger] acts[j] matches SendAction::StartSend(i) ==> b.send_pos <= i < b.total)
            &&& forall|j: int|
                0 <= j < acts.len() - 1 ==> !(#[trigger] acts[j] is Finish)
            &&& (last.step == SendStep::Done && acts.len() > 0 && acts.last() == SendAction::Finish(SendOutcome::Sent(b.total))) || b.send_pos <= last.send_pos
            &&& last.step == SendStep::Done ==> acts.len() > 0 && acts.last() is Finish
        }),
    decreases evs.len(),
{
    if evs.len() > 0 {
        let (b1, a) = send_transition(b, evs[0]);
        let rest = evs.drop_first();
        if b1.step != SendStep::Done {
            assert(b1.wf());
            lemma_batch_sends_within_range(b1, rest);
            let (last, acts1) = run_batch(b1, rest);
            let acts = seq![a] + acts1;
            assert(run_batch(b, evs) == (last, acts));
            assert forall|j: int| 0 <= j < acts.len() implies (#[trigger] acts[j] matches SendAction::StartSend(i) ==> b.send_pos <= i < b.total) by {
                if j > 0 {
                    assert(acts[j] == acts1[j - 1]);
                }
            }
            assert forall|j: int| 0 <= j < acts.len() - 1 implies !(#[trigger] acts[j] is Finish) by {
                if j > 0 {
                    assert(acts[j] == acts1[j - 1]);
                }
            }
            if last.step == SendStep::Done {
                assert(acts1.len() > 0);
                assert(acts.last() == acts1.last());
            }
        } else {
            assert(run_batch(b1, rest) == (b1, Seq::<SendAction>::empty()));
            assert(run_batch(b, evs) == (b1, seq![a] + Seq::<SendAction>::empty()));
            assert(seq![a] + Seq::<SendAction>::empty() =~= seq![a]);
        }
    }
}

} // verus!
