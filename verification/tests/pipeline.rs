use framestream::image_decoder::{encode_snapshot, RawFrame};
use framestream::image_reader::{
    Frame, FrameCache, FrameChannel, Frames, Message, ProducerAction, ProducerEvent,
    StreamProducer,
};

fn frame(name: &str) -> Frame {
    Frame { name: name.to_string(), width: 1, height: 1, rgba: vec![0, 0, 0, 255] }
}

fn raw(name: &str, width: u32, height: u32, channels: u32, bytes: Vec<u8>) -> RawFrame {
    RawFrame { name: name.to_string(), width, height, channels, bytes }
}

fn names(frames: &Frames) -> Vec<String> {
    frames.frames.iter().map(|f| f.name.clone()).collect()
}

#[test]
fn cache_orders_keys_and_promotes_main() {
    let mut cache = FrameCache::new();
    cache.merge(frame("B"));
    cache.merge(frame("Main"));
    cache.merge(frame("A"));
    let set = cache.snapshot("d".to_string());
    assert_eq!(names(&set), vec!["Main", "A", "B"]);
}

#[test]
fn cache_orders_keys_without_main() {
    let mut cache = FrameCache::new();
    cache.merge(frame("B"));
    cache.merge(frame("A"));
    let set = cache.snapshot("d".to_string());
    assert_eq!(names(&set), vec!["A", "B"]);
}

#[test]
fn cache_same_name_replaces_entry() {
    let mut cache = FrameCache::new();
    let mut first = frame("X");
    first.rgba = vec![1, 1, 1, 255];
    let mut second = frame("X");
    second.rgba = vec![2, 2, 2, 255];
    cache.merge(first);
    cache.merge(second);
    let set = cache.snapshot(String::new());
    assert_eq!(set.frames.len(), 1);
    assert_eq!(set.frames[0].rgba, vec![2, 2, 2, 255]);
}

#[test]
fn cache_entries_persist_across_cycles() {
    let mut producer = StreamProducer::new();
    producer.send_frames("one".to_string(), &vec![raw("slow", 1, 1, 1, vec![9])]);
    let set = producer.send_frames("two".to_string(), &vec![raw("fast", 1, 1, 1, vec![8])]);
    assert_eq!(set.description, "two");
    assert_eq!(names(&set), vec!["fast", "slow"]);
}

#[test]
fn send_frames_normalizes_and_orders() {
    let mut producer = StreamProducer::new();
    let set = producer.send_frames(
        "cycle".to_string(),
        &vec![
            raw("B", 1, 1, 3, vec![1, 2, 3]),
            raw("Main", 1, 1, 1, vec![7]),
            raw("A", 1, 1, 4, vec![4, 3, 2, 1]),
        ],
    );
    assert_eq!(set.description, "cycle");
    assert_eq!(names(&set), vec!["Main", "A", "B"]);
    assert_eq!(set.frames[0].rgba, vec![7, 7, 7, 255]);
    assert_eq!(set.frames[1].rgba, vec![4, 3, 2, 1]);
    assert_eq!(set.frames[2].rgba, vec![3, 2, 1, 255]);
}

#[test]
fn send_frames_skips_size_mismatch() {
    let mut producer = StreamProducer::new();
    let set = producer.send_frames(
        String::new(),
        &vec![raw("bad", 2, 2, 1, vec![1, 2, 3]), raw("good", 1, 1, 1, vec![5])],
    );
    assert_eq!(names(&set), vec!["good"]);
}

#[test]
fn send_frames_skips_unsupported_depth() {
    let mut producer = StreamProducer::new();
    let set = producer.send_frames(
        String::new(),
        &vec![raw("two", 1, 1, 2, vec![1, 2]), raw("ok", 1, 1, 1, vec![5])],
    );
    assert_eq!(names(&set), vec!["ok"]);
}

#[test]
fn channel_backpressure_refuses_second_send() {
    let mut channel = FrameChannel::new();
    let first = Frames { description: "first".to_string(), frames: Vec::new() };
    let second = Frames { description: "second".to_string(), frames: Vec::new() };
    assert!(channel.try_send(Message::NewFrames(first)).is_none());
    // The slot is still occupied: the second offer is refused and handed
    // back, and the pending message is neither overwritten nor dropped.
    match channel.try_send(Message::NewFrames(second)) {
        Some(Message::NewFrames(refused)) => assert_eq!(refused.description, "second"),
        _ => panic!("expected the second offer to be refused and handed back"),
    }
    match channel.drain() {
        Some(Message::NewFrames(pending)) => assert_eq!(pending.description, "first"),
        _ => panic!("expected the first frame set to still be pending"),
    }
    let third = Frames { description: "third".to_string(), frames: Vec::new() };
    assert!(channel.try_send(Message::NewFrames(third)).is_none());
}

#[test]
fn channel_drain_empties_the_slot() {
    let mut channel = FrameChannel::new();
    assert!(channel.drain().is_none());
    assert!(channel.try_send(Message::VideoFinished).is_none());
    assert!(matches!(channel.drain(), Some(Message::VideoFinished)));
    assert!(channel.drain().is_none());
}

#[test]
fn producer_emits_decoded_snapshot() {
    let mut producer = StreamProducer::new();
    let buffer = encode_snapshot(
        "live",
        &vec![raw("Main", 1, 1, 1, vec![3]), raw("Aux", 1, 1, 3, vec![9, 8, 7])],
    );
    let action = producer.step(&ProducerEvent::Snapshot { version: 1, bytes: buffer });
    match action {
        ProducerAction::Emit(set) => {
            assert_eq!(set.description, "live");
            assert_eq!(names(&set), vec!["Main", "Aux"]);
            assert_eq!(set.frames[0].rgba, vec![3, 3, 3, 255]);
            assert_eq!(set.frames[1].rgba, vec![7, 8, 9, 255]);
        }
        _ => panic!("a snapshot event must be answered with an emission"),
    }
}

#[test]
fn producer_polls_on_spurious_wake() {
    let mut producer = StreamProducer::new();
    assert!(matches!(producer.step(&ProducerEvent::Wake), ProducerAction::Poll));
}

#[test]
fn exactly_one_terminal_after_stop() {
    let mut producer = StreamProducer::new();
    let buffer = encode_snapshot("x", &Vec::new());
    producer.step(&ProducerEvent::Snapshot { version: 1, bytes: buffer });
    let mut terminals = 0;
    let mut emissions_after_terminal = 0;
    let events = vec![
        ProducerEvent::Stop,
        ProducerEvent::Wake,
        ProducerEvent::Snapshot { version: 2, bytes: Vec::new() },
        ProducerEvent::Stop,
    ];
    for event in &events {
        match producer.step(event) {
            ProducerAction::EmitTerminal => terminals += 1,
            ProducerAction::Emit(_) if terminals > 0 => emissions_after_terminal += 1,
            _ => {}
        }
    }
    assert_eq!(terminals, 1);
    assert_eq!(emissions_after_terminal, 0);
}

#[test]
fn consumer_loss_also_ends_the_run() {
    let mut producer = StreamProducer::new();
    assert!(matches!(producer.step(&ProducerEvent::ConsumerGone), ProducerAction::EmitTerminal));
    assert!(matches!(producer.step(&ProducerEvent::Stop), ProducerAction::Halt));
    assert!(matches!(producer.step(&ProducerEvent::Wake), ProducerAction::Halt));
}

#[test]
fn duplicate_preserves_frame_contents() {
    let source = Frame { name: "n".to_string(), width: 2, height: 3, rgba: vec![1, 2, 3, 4] };
    let copy = source.duplicate();
    assert_eq!(copy.name, source.name);
    assert_eq!(copy.width, source.width);
    assert_eq!(copy.height, source.height);
    assert_eq!(copy.rgba, source.rgba);
}
