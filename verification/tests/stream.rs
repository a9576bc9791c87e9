use wallpaper_processor::stream::{
    frame_len, ChildStatus, ChildStream, StreamAction, StreamError, StreamEvent,
};

fn stream(frame: Vec<u8>) -> ChildStream {
    ChildStream { outputs: vec!["a".to_string()], frame }
}

#[test]
fn a_running_child_is_read() {
    let mut s = stream(vec![0; 4]);
    assert!(matches!(
        s.next_action(StreamEvent::Polled(ChildStatus::Running)),
        StreamAction::ReadFrame
    ));
    let action = s.next_action(StreamEvent::FrameRead(vec![1, 2, 3, 4]));
    assert!(matches!(action, StreamAction::Send(frame) if frame == vec![1, 2, 3, 4]));
    assert_eq!(s.frame, vec![1, 2, 3, 4]);
    assert!(matches!(s.next_action(StreamEvent::FrameSent(false)), StreamAction::Poll));
    assert_eq!(s.outputs, vec!["a".to_string()]);
}

#[test]
fn a_stopped_stream_kills_its_child() {
    let mut s = stream(vec![0; 4]);
    assert!(matches!(s.next_action(StreamEvent::FrameSent(true)), StreamAction::Kill));
}

#[test]
fn the_rest_is_read_when_the_child_is_gone() {
    let mut s = stream(vec![0; 4]);
    assert!(matches!(
        s.next_action(StreamEvent::Polled(ChildStatus::Exited)),
        StreamAction::ReadTail
    ));
    assert!(matches!(
        s.next_action(StreamEvent::Polled(ChildStatus::Unknown)),
        StreamAction::ReadTail
    ));
    assert!(matches!(s.next_action(StreamEvent::ReadFailed), StreamAction::ReadTail));
    assert!(matches!(s.next_action(StreamEvent::TailFailed), StreamAction::Stop));
}

#[test]
fn the_rest_is_shown_only_without_a_frame_before_it() {
    let mut s = stream(vec![0; 4]);
    assert!(matches!(
        s.next_action(StreamEvent::TailRead(vec![1, 2, 3, 4])),
        StreamAction::Stop
    ));
    assert_eq!(s.frame, vec![0, 0, 0, 0, 1, 2, 3, 4]);
    let mut s = stream(Vec::new());
    let action = s.next_action(StreamEvent::TailRead(vec![1, 2]));
    assert!(matches!(action, StreamAction::SendLast(frame) if frame == vec![1, 2]));
}

#[test]
fn frames_have_four_bytes_per_pixel() {
    assert_eq!(frame_len(1920, 1080), Some(8294400));
    assert_eq!(frame_len(0, 7), Some(0));
    assert_eq!(frame_len(u32::MAX, u32::MAX), None);
}

#[test]
fn failures_are_put_into_words() {
    assert_eq!(
        StreamError::Spawn("no such file".to_string()).message(),
        "Failed to spawn child process: no such file"
    );
    assert_eq!(StreamError::NoStdout.message(), "Couldn't capture child process stdout.");
    assert_eq!(
        StreamError::Read("early eof".to_string()).message(),
        "Failed to read child stdout: early eof"
    );
}
