use quinn_wasm::{
    deliver_datagram, incoming_message, instant_to_wasmtimer_instant, transmit_to_message,
    InboundMessage, IncomingFrame, OutboundMessage, RecvError, RecvMeta, SendAction, SendBatch,
    SendOutcome, SendStep, SinkEvent, SocketAddr, Transmit, WireError, WsMessage,
};

fn addr() -> SocketAddr {
    SocketAddr::V4 { ip: [127, 0, 0, 1], port: 4000 }
}

#[test]
fn transmit_becomes_binary_outbound_message() {
    let t = Transmit { destination: addr(), contents: vec![1, 2, 3] };
    let msg = transmit_to_message(&t).unwrap();
    let expected = OutboundMessage { dst: addr(), content: vec![1, 2, 3] }.to_vec().unwrap();
    assert_eq!(msg, WsMessage::Binary(expected));
    match msg {
        WsMessage::Binary(data) => {
            assert_eq!(data, vec![0, 127, 0, 0, 1, 0xa0, 0x1f, 3, 1, 2, 3]);
        }
        _ => panic!("expected a binary frame"),
    }
}

#[test]
fn incoming_binary_frame_gives_message() {
    let data = InboundMessage { src: addr(), content: vec![5, 6] }.to_vec().unwrap();
    let m = incoming_message(IncomingFrame::Frame(WsMessage::Binary(data))).unwrap();
    assert_eq!(m, InboundMessage { src: addr(), content: vec![5, 6] });
}

#[test]
fn incoming_closed_stream() {
    assert_eq!(incoming_message(IncomingFrame::Closed), Err(RecvError::StreamClosed));
}

#[test]
fn incoming_failed_stream() {
    assert_eq!(incoming_message(IncomingFrame::Failed), Err(RecvError::Transport));
}

#[test]
fn incoming_text_frame() {
    let frame = IncomingFrame::Frame(WsMessage::Text("hi".to_string()));
    assert_eq!(incoming_message(frame), Err(RecvError::NotBinary));
    assert_eq!(incoming_message(IncomingFrame::Frame(WsMessage::Close)), Err(RecvError::NotBinary));
}

#[test]
fn incoming_malformed_frame() {
    let frame = IncomingFrame::Frame(WsMessage::Binary(vec![7, 1, 2]));
    assert_eq!(incoming_message(frame), Err(RecvError::Malformed(WireError::UnknownAddressKind)));
    let frame = IncomingFrame::Frame(WsMessage::Binary(vec![]));
    assert_eq!(incoming_message(frame), Err(RecvError::Malformed(WireError::UnexpectedEnd)));
}

#[test]
fn deliver_copies_to_buffer_start() {
    let msg = InboundMessage { src: addr(), content: vec![9, 8, 7] };
    let mut buf = vec![0u8; 6];
    let meta = deliver_datagram(&msg, &mut buf);
    assert_eq!(buf, vec![9, 8, 7, 0, 0, 0]);
    assert_eq!(meta, RecvMeta { addr: addr(), len: 3, stride: 3 });
}

#[test]
fn deliver_empty_datagram() {
    let msg = InboundMessage { src: addr(), content: vec![] };
    let mut buf = vec![4u8; 2];
    let meta = deliver_datagram(&msg, &mut buf);
    assert_eq!(buf, vec![4, 4]);
    assert_eq!(meta.len, 0);
    assert_eq!(meta.stride, 0);
}

fn drive(batch: &mut SendBatch, first: SendAction, events: &[SinkEvent]) -> Vec<SendAction> {
    let mut actions = vec![first];
    for ev in events {
        let a = batch.step(*ev);
        actions.push(a);
        if let SendAction::Finish(_) = a {
            break;
        }
    }
    actions
}

#[test]
fn batch_always_ready_sends_each_once_in_order() {
    let (mut b, first) = SendBatch::begin(0, 3);
    let actions = drive(&mut b, first, &[SinkEvent::Ready; 8]);
    assert_eq!(
        actions,
        vec![
            SendAction::PollReady,
            SendAction::StartSend(0),
            SendAction::PollReady,
            SendAction::StartSend(1),
            SendAction::PollReady,
            SendAction::StartSend(2),
            SendAction::PollReady,
            SendAction::PollFlush,
            SendAction::Finish(SendOutcome::Sent(3)),
        ]
    );
    assert_eq!(b.send_pos, 0);
    assert_eq!(b.step, SendStep::Done);
}

#[test]
fn batch_empty() {
    let (mut b, first) = SendBatch::begin(0, 0);
    let actions = drive(&mut b, first, &[SinkEvent::Ready; 2]);
    assert_eq!(
        actions,
        vec![SendAction::PollReady, SendAction::PollFlush, SendAction::Finish(SendOutcome::Sent(0))]
    );
}

#[test]
fn batch_not_ready_at_first() {
    let (mut b, first) = SendBatch::begin(1, 3);
    let actions = drive(&mut b, first, &[SinkEvent::Pending]);
    assert_eq!(actions, vec![SendAction::PollReady, SendAction::Finish(SendOutcome::Pending)]);
    assert_eq!(b.send_pos, 1);
}

#[test]
fn batch_pending_after_send_resumes_same_transmit() {
    let (mut b, first) = SendBatch::begin(0, 2);
    let actions = drive(
        &mut b,
        first,
        &[SinkEvent::Ready, SinkEvent::Ready, SinkEvent::Ready, SinkEvent::Ready, SinkEvent::Pending],
    );
    assert_eq!(
        actions,
        vec![
            SendAction::PollReady,
            SendAction::StartSend(0),
            SendAction::PollReady,
            SendAction::StartSend(1),
            SendAction::PollReady,
            SendAction::Finish(SendOutcome::Pending),
        ]
    );
    // transmit 1 was handed to the sink but not confirmed: the next call starts it again
    assert_eq!(b.send_pos, 1);
    let (mut b2, first2) = SendBatch::begin(b.send_pos, 2);
    let actions2 = drive(&mut b2, first2, &[SinkEvent::Ready; 4]);
    assert_eq!(
        actions2,
        vec![
            SendAction::PollReady,
            SendAction::StartSend(1),
            SendAction::PollReady,
            SendAction::PollFlush,
            SendAction::Finish(SendOutcome::Sent(2)),
        ]
    );
    assert_eq!(b2.send_pos, 0);
}

#[test]
fn batch_send_failure() {
    let (mut b, first) = SendBatch::begin(0, 2);
    let actions = drive(&mut b, first, &[SinkEvent::Ready, SinkEvent::Failed]);
    assert_eq!(
        actions,
        vec![SendAction::PollReady, SendAction::StartSend(0), SendAction::Finish(SendOutcome::Failed)]
    );
    assert_eq!(b.send_pos, 0);
}

#[test]
fn batch_flush_pending_keeps_position() {
    let (mut b, first) = SendBatch::begin(0, 1);
    let actions = drive(&mut b, first, &[SinkEvent::Ready, SinkEvent::Ready, SinkEvent::Ready, SinkEvent::Pending]);
    assert_eq!(actions.last(), Some(&SendAction::Finish(SendOutcome::Pending)));
    assert_eq!(b.send_pos, 1);
    // the next call finds nothing left to send and only flushes
    let (mut b2, first2) = SendBatch::begin(b.send_pos, 1);
    let actions2 = drive(&mut b2, first2, &[SinkEvent::Ready; 2]);
    assert_eq!(
        actions2,
        vec![SendAction::PollReady, SendAction::PollFlush, SendAction::Finish(SendOutcome::Sent(1))]
    );
}

#[test]
fn batch_position_beyond_a_shorter_batch() {
    let (mut b, first) = SendBatch::begin(5, 2);
    let actions = drive(&mut b, first, &[SinkEvent::Ready; 2]);
    assert_eq!(
        actions,
        vec![SendAction::PollReady, SendAction::PollFlush, SendAction::Finish(SendOutcome::Sent(2))]
    );
    assert_eq!(b.send_pos, 0);
}

#[test]
fn timer_deadline_ahead() {
    assert_eq!(instant_to_wasmtimer_instant(1_500, 1_000, 40), 540);
}

#[test]
fn timer_deadline_now() {
    assert_eq!(instant_to_wasmtimer_instant(1_000, 1_000, 40), 40);
}

#[test]
fn timer_deadline_past() {
    assert_eq!(instant_to_wasmtimer_instant(10, 1_000, 40), 40);
}

#[test]
fn timer_deadlines_keep_their_order() {
    let now = 5_000;
    let wasm_now = 77;
    let mut last = 0;
    for input in [0u64, 4_999, 5_000, 5_001, 9_000, 1_000_000] {
        let t = instant_to_wasmtimer_instant(input, now, wasm_now);
        assert!(t >= last);
        last = t;
    }
    assert_eq!(last, 77 + 995_000);
}
