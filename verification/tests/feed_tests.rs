use mbo_book::feed::{frame_message, subscriber_step, FeedAction, FeedEvent};

#[test]
fn frame_appends_one_newline() {
    let framed = frame_message(vec![b'{', b'}']);
    assert_eq!(framed, vec![b'{', b'}', b'\n']);
    assert_eq!(frame_message(Vec::new()), vec![b'\n']);
}

#[test]
fn subscriber_policy() {
    match subscriber_step(FeedEvent::Message(vec![1, 2, 3])) {
        FeedAction::Forward(m) => assert_eq!(m, vec![1, 2, 3]),
        _ => panic!("a message is forwarded"),
    }
    assert!(matches!(subscriber_step(FeedEvent::Lagged(17)), FeedAction::Skip));
    assert!(matches!(subscriber_step(FeedEvent::Closed), FeedAction::Stop));
}

/// A producer outruns a stalled subscriber by more than the channel
/// holds: the fast subscriber sees everything, the stalled one observes
/// one lag report covering the overrun and then reads on, in order,
/// still connected.
#[test]
fn fanout_lag_on_bounded_channel() {
    // the channel's real depth; tokio keeps power-of-two capacities
    let depth: usize = 128;
    let total: usize = depth + 5;
    let (tx, mut rx_fast) = tokio::sync::broadcast::channel::<Vec<u8>>(depth);
    let mut rx_slow = tx.subscribe();

    let mut fast_got: Vec<u8> = Vec::new();
    for i in 0..total {
        tx.send(vec![i as u8]).unwrap();
        // the fast subscriber keeps up, draining as the producer sends
        let m = rx_fast.try_recv().unwrap();
        fast_got.push(m[0]);
    }
    assert_eq!(fast_got.len(), total);
    for (i, b) in fast_got.iter().enumerate() {
        assert_eq!(*b, i as u8);
    }

    // the stalled subscriber first learns how far it fell behind
    match rx_slow.try_recv() {
        Err(tokio::sync::broadcast::error::TryRecvError::Lagged(n)) => {
            assert!(n >= 5);
        },
        other => panic!("expected a lag report, got {:?}", other),
    }
    // then delivery resumes in order from the channel head
    let mut last: Option<u8> = None;
    let mut received: usize = 0;
    loop {
        match rx_slow.try_recv() {
            Ok(m) => {
                if let Some(p) = last {
                    assert!(m[0] > p);
                }
                last = Some(m[0]);
                received += 1;
            },
            Err(tokio::sync::broadcast::error::TryRecvError::Empty) => break,
            Err(e) => panic!("subscriber should stay connected: {:?}", e),
        }
    }
    assert!(received > 0);
    assert_eq!(last, Some((total - 1) as u8));
}
