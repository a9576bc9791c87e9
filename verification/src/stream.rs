//! Showing the frames that a child process writes to its standard output.
use vstd::prelude::*;

use crate::copies::copy_bytes;

verus! {

/// How the child process was found when it was asked after.
pub enum ChildStatus {
    Running,
    Exited,
    /// Asking failed.
    Unknown,
}

/// What happened since the last action of a stream.
pub enum StreamEvent {
    /// The child process was asked after.
    Polled(ChildStatus),
    /// A whole frame was read.
    FrameRead(Vec<u8>),
    /// Reading a frame failed.
    ReadFailed,
    /// A frame was sent, with what sending it said: whether to exit.
    FrameSent(bool),
    /// What the child process had still written was read to its end.
    TailRead(Vec<u8>),
    /// Reading the rest failed.
    TailFailed,
}

/// What a stream does next.
pub enum StreamAction {
    /// Ask after the child process.
    Poll,
    /// Read a whole frame.
    ReadFrame,
    /// Send a frame without waiting.
    Send(Vec<u8>),
    /// Kill the child process and end.
    Kill,
    /// Read what the child process had still written.
    ReadTail,
    /// Send a frame without waiting, and end.
    SendLast(Vec<u8>),
    /// End.
    Stop,
}

/// A stream of frames from a child process.
pub struct ChildStream {
    /// The outputs that still show the stream.
    pub outputs: Vec<String>,
    /// The bytes of the frame that was read last.
    pub frame: Vec<u8>,
}

/// The buffer of a stream after an event: a frame replaces it, the rest is added to it.
pub open spec fn buffer_after(buffer: Seq<u8>, event: StreamEvent) -> Seq<u8> {
    match event {
        StreamEvent::FrameRead(bytes) => bytes@,
        StreamEvent::TailRead(tail) => buffer + tail@,
        _ => buffer,
    }
}

/// Whether `action` is what follows an event, given the buffer after it.
pub open spec fn follows(event: StreamEvent, buffer: Seq<u8>, action: StreamAction) -> bool {
    match event {
        StreamEvent::Polled(ChildStatus::Running) => action is ReadFrame,
        StreamEvent::Polled(_) => action is ReadTail,
        StreamEvent::FrameRead(_) => action matches StreamAction::Send(bytes) && bytes@ == buffer,
        StreamEvent::ReadFailed => action is ReadTail,
        StreamEvent::FrameSent(exit) => if exit {
            action is Kill
        } else {
            action is Poll
        },
        StreamEvent::TailRead(tail) => if tail@.len() == buffer.len() {
            action matches StreamAction::SendLast(bytes) && bytes@ == buffer
        } else {
            action is Stop
        },
        StreamEvent::TailFailed => action is Stop,
    }
}

impl ChildStream {
    /// Takes an event and says what to do next. The first thing a stream does is to
    /// ask after its child process.
    pub fn next_action(&mut self, event: StreamEvent) -> (action: StreamAction)
        ensures
            final(self).frame@ == buffer_after(old(self).frame@, event),
            final(self).outputs == old(self).outputs,
            follows(event, final(self).frame@, action),
            event matches StreamEvent::FrameRead(bytes) ==> {
                &&& action matches StreamAction::Send(sent)
                &&& sent@ == bytes@
                &&& final(self).frame@ == bytes@
            },
    {
        match event {
            StreamEvent::Polled(status) => match status {
                ChildStatus::Running => StreamAction::ReadFrame,
                ChildStatus::Exited => StreamAction::ReadTail,
                ChildStatus::Unknown => StreamAction::ReadTail,
            },
            StreamEvent::FrameRead(bytes) => {
                self.frame = bytes;
                StreamAction::Send(copy_bytes(&self.frame))
            },
            StreamEvent::ReadFailed => StreamAction::ReadTail,
            StreamEvent::FrameSent(exit) => if exit {
                StreamAction::Kill
            } else {
                StreamAction::Poll
            },
            StreamEvent::TailRead(tail) => {
                let mut rest = tail;
                let read: usize = rest.len();
                self.frame.append(&mut rest);
                if read == self.frame.len() {
                    StreamAction::SendLast(copy_bytes(&self.frame))
                } else {
                    StreamAction::Stop
                }
            },
            StreamEvent::TailFailed => StreamAction::Stop,
        }
    }
}

/// The bytes of a frame of `width` times `height` pixels, if they can be counted.
pub fn frame_len(width: u32, height: u32) -> (r: Option<usize>)
    ensures
        match r {
            Some(len) => len == width * height * 4,
            None => width * height * 4 > usize::MAX,
        },
{
    proof {
        assert(width * height * 4 <= u128::MAX) by (nonlinear_arith)
            requires
                width <= u32::MAX,
                height <= u32::MAX,
        ;
        assert(0 <= width * height <= u128::MAX) by (nonlinear_arith)
            requires
                width <= u32::MAX,
                height <= u32::MAX,
        ;
    }
    let len: u128 = (width as u128) * (height as u128) * 4;
    if len <= usize::MAX as u128 {
        Some(len as usize)
    } else {
        None
    }
}

/// Why a stream could not be started, with the words of the system where it gave any.
pub enum StreamError {
    Spawn(String),
    NoStdout,
    Read(String),
}

/// What is said of a stream that could not be started.
pub open spec fn error_text(error: StreamError) -> Seq<char> {
    match error {
        StreamError::Spawn(cause) => "Failed to spawn child process: "@ + cause@,
        StreamError::NoStdout => "Couldn't capture child process stdout."@,
        StreamError::Read(cause) => "Failed to read child stdout: "@ + cause@,
    }
}

impl StreamError {
    /// The answer to a request whose stream could not be started.
    pub fn message(&self) -> (r: String)
        ensures
            r@ == error_text(*self),
    {
        match self {
            StreamError::Spawn(cause) => "Failed to spawn child process: ".to_owned().concat(
                cause.as_str(),
            ),
            StreamError::NoStdout => "Couldn't capture child process stdout.".to_owned(),
            StreamError::Read(cause) => "Failed to read child stdout: ".to_owned().concat(
                cause.as_str(),
            ),
        }
    }
}

/// A stream kills its child process exactly when sending a frame said to exit.
pub proof fn only_exit_kills(event: StreamEvent, buffer: Seq<u8>, action: StreamAction)
    requires
        follows(event, buffer_after(buffer, event), action),
    ensures
        action is Kill <==> (event matches StreamEvent::FrameSent(exit) && exit),
{
}

/// What is left of the output of a child process that ended is shown only by a
/// stream without a frame before it: it has to make up the whole buffer.
pub proof fn tail_is_shown_alone(tail: Vec<u8>, buffer: Seq<u8>, action: StreamAction)
    requires
        follows(
            StreamEvent::TailRead(tail),
            buffer_after(buffer, StreamEvent::TailRead(tail)),
            action,
        ),
    ensures
        action is SendLast <==> buffer.len() == 0,
        action matches StreamAction::SendLast(bytes) ==> bytes@ == tail@,
{
    if buffer.len() == 0 {
        assert(buffer + tail@ =~= tail@);
    }
}

/// A frame that was read whole is the frame that is sent, byte for byte, and the one that
/// the stream remembers.
pub proof fn the_frame_that_was_read_is_sent(
    stream: &mut ChildStream,
    bytes: Vec<u8>,
    action: StreamAction,
)
    requires
        call_ensures(ChildStream::next_action, (stream, StreamEvent::FrameRead(bytes)), action),
    ensures
        action matches StreamAction::Send(sent) && sent@ == bytes@,
        final(stream).frame@ == bytes@,
        final(stream).outputs.deep_view() == old(stream).outputs.deep_view(),
{
}

/// The rest of what a program wrote is added to the frame that was read last. It is sent,
/// as the last frame, exactly if there was no frame before it.
pub proof fn the_rest_follows_the_last_frame(
    stream: &mut ChildStream,
    tail: Vec<u8>,
    action: StreamAction,
)
    requires
        call_ensures(ChildStream::next_action, (stream, StreamEvent::TailRead(tail)), action),
    ensures
        final(stream).frame@ == old(stream).frame@ + tail@,
        old(stream).frame@.len() == 0 ==> (action matches StreamAction::SendLast(sent) && sent@
            == tail@),
        old(stream).frame@.len() > 0 ==> action is Stop,
        final(stream).outputs.deep_view() == old(stream).outputs.deep_view(),
{
    if old(stream).frame@.len() == 0 {
        assert(old(stream).frame@ + tail@ =~= tail@);
    }
}

/// Every other event leaves the stream as it is and decides the next action alone: a
/// running program is read, one that is gone or cannot be read is read to its end, and
/// after a frame was sent the program is killed if there is nobody left to show it to,
/// and asked after otherwise.
pub proof fn events_without_bytes_decide_alone(
    stream: &mut ChildStream,
    event: StreamEvent,
    action: StreamAction,
)
    requires
        call_ensures(ChildStream::next_action, (stream, event), action),
        !(event is FrameRead),
        !(event is TailRead),
    ensures
        final(stream).frame@ == old(stream).frame@,
        final(stream).outputs.deep_view() == old(stream).outputs.deep_view(),
        action is ReadFrame <==> event == StreamEvent::Polled(ChildStatus::Running),
        action is ReadTail <==> event == StreamEvent::Polled(ChildStatus::Exited) || event
            == StreamEvent::Polled(ChildStatus::Unknown) || event is ReadFailed,
        action is Kill <==> event == StreamEvent::FrameSent(true),
        action is Poll <==> event == StreamEvent::FrameSent(false),
        action is Stop <==> event is TailFailed,
{
}

/// A stream takes every event.
pub proof fn a_stream_takes_every_event(stream: &mut ChildStream, event: StreamEvent)
    ensures
        call_requires(ChildStream::next_action, (stream, event)),
{
}

/// A frame has four bytes for each pixel. Only a number of bytes that cannot be counted
/// gives nothing.
pub proof fn a_frame_has_four_bytes_per_pixel(width: u32, height: u32, r: Option<usize>)
    requires
        call_ensures(frame_len, (width, height), r),
    ensures
        r matches Some(len) ==> len == 4 * (width * height),
        r is None <==> 4 * (width * height) > usize::MAX,
{
}

/// What is said of a stream that could not be started ends with the words of the system,
/// and begins with what failed.
pub proof fn failures_are_named(error: &StreamError, r: String)
    requires
        call_ensures(StreamError::message, (error,), r),
    ensures
        match *error {
            StreamError::Spawn(cause) => r@ == "Failed to spawn child process: "@ + cause@,
            StreamError::NoStdout => r@ == "Couldn't capture child process stdout."@,
            StreamError::Read(cause) => r@ == "Failed to read child stdout: "@ + cause@,
        },
{
}

} // verus!
