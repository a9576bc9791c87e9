//! Sending a frame to the outputs that still want it.
use vstd::prelude::*;

use crate::copies::copy_texts;
use crate::groups::{kept_positions, remove_texts, without, without_members};

verus! {

/// What came in on an animation's stop channel while it waited to send a frame.
pub enum StopEvent {
    /// The animation no longer draws to these outputs.
    Remove(Vec<String>),
    /// Nobody can stop the animation any more.
    Disconnected,
    /// Nothing came in.
    Timeout,
}

/// The outputs that are left after an event.
pub open spec fn outputs_after(outputs: Seq<Seq<char>>, event: StopEvent) -> Seq<Seq<char>> {
    match event {
        StopEvent::Remove(removed) => without(outputs, removed.deep_view()),
        _ => outputs,
    }
}

/// An event ends the animation: its last output was taken away, or the stop channel
/// is gone.
pub open spec fn ends(outputs: Seq<Seq<char>>, event: StopEvent) -> bool {
    match event {
        StopEvent::Remove(_) => outputs_after(outputs, event).len() == 0,
        StopEvent::Disconnected => true,
        StopEvent::Timeout => false,
    }
}

/// The one message that goes out after an event, if any: the frame, for the outputs
/// that are left.
pub open spec fn message_after(
    outputs: Seq<Seq<char>>,
    event: StopEvent,
    frame: Seq<u8>,
) -> Option<(Seq<Seq<char>>, Seq<u8>)> {
    if ends(outputs, event) {
        None
    } else {
        Some((outputs_after(outputs, event), frame))
    }
}

/// `send` was handed a channel with the frame for `outputs`; it gave the channel back
/// as `after`, and said whether the frame was delivered.
pub open spec fn sent<W, F>(
    send: F,
    channel: W,
    outputs: Seq<Seq<char>>,
    frame: Seq<u8>,
    after: W,
    delivered: bool,
) -> bool where F: Fn(W, Vec<String>, Vec<u8>) -> (W, bool) {
    exists|o: Vec<String>, f: Vec<u8>|
        o.deep_view() == outputs && f@ == frame && #[trigger] call_ensures(
            send,
            (channel, o, f),
            (after, delivered),
        )
}

/// `send` accepts the channel with the frame for `outputs`.
pub open spec fn can_send<W, F>(
    send: F,
    channel: W,
    outputs: Seq<Seq<char>>,
    frame: Seq<u8>,
) -> bool where F: Fn(W, Vec<String>, Vec<u8>) -> (W, bool) {
    forall|o: Vec<String>, f: Vec<u8>|
        o.deep_view() == outputs && f@ == frame ==> #[trigger] call_requires(
            send,
            (channel, o, f),
        )
}

/// Takes an event: drops the outputs that it takes away, and gives the one message
/// that goes out after it, if any.
pub fn frame_message(
    frame: Vec<u8>,
    outputs: &mut Vec<String>,
    event: StopEvent,
) -> (r: Option<(Vec<String>, Vec<u8>)>)
    ensures
        final(outputs).deep_view() == outputs_after(old(outputs).deep_view(), event),
        match r {
            Some(message) => message_after(old(outputs).deep_view(), event, frame@) == Some(
                (message.0.deep_view(), message.1@),
            ),
            None => message_after(old(outputs).deep_view(), event, frame@) is None,
        },
{
    match event {
        StopEvent::Remove(removed) => {
            *outputs = remove_texts(outputs, &removed);
            if outputs.is_empty() {
                return None;
            }
        },
        StopEvent::Disconnected => {
            return None;
        },
        StopEvent::Timeout => {},
    }
    Some((copy_texts(outputs), frame))
}

/// Sends a frame to the outputs that an event leaves. Returns the channel, and whether
/// the calling animation should exit: because the event ends it, in which case the
/// channel is left alone, or because the frame could not be delivered.
///
/// `send` takes the channel and gives it back. What comes back here went through `send`
/// exactly once, or not at all.
pub fn send_frame<W, F>(
    frame: Vec<u8>,
    outputs: &mut Vec<String>,
    event: StopEvent,
    channel: W,
    send: &F,
) -> (r: (W, bool)) where F: Fn(W, Vec<String>, Vec<u8>) -> (W, bool)
    requires
        message_after(old(outputs).deep_view(), event, frame@) matches Some(message) ==> can_send(
            *send,
            channel,
            message.0,
            message.1,
        ),
    ensures
        final(outputs).deep_view() == outputs_after(old(outputs).deep_view(), event),
        match message_after(old(outputs).deep_view(), event, frame@) {
            Some(message) => sent(*send, channel, message.0, message.1, r.0, !r.1),
            None => r == (channel, true),
        },
{
    match frame_message(frame, outputs, event) {
        Some((left, frame)) => {
            let (channel, delivered) = send(channel, left, frame);
            (channel, !delivered)
        },
        None => (channel, true),
    }
}

/// How many nanoseconds an animation waits before a frame that is due
/// `duration_ms` milliseconds after the one before it, when `elapsed` nanoseconds
/// have passed since.
pub fn frame_timeout(duration_ms: u64, elapsed: u128) -> (r: u128)
    ensures
        r == (if elapsed < duration_ms * 1_000_000 {
            duration_ms * 1_000_000 - elapsed
        } else {
            0
        }),
{
    let duration: u128 = duration_ms as u128 * 1_000_000;
    if elapsed < duration {
        duration - elapsed
    } else {
        0
    }
}

/// Being told to leave some outputs ends an animation exactly if it has no others.
pub proof fn losing_every_output_ends(outputs: Seq<Seq<char>>, removed: Vec<String>)
    ensures
        ends(outputs, StopEvent::Remove(removed)) <==> forall|o: Seq<char>| #[trigger]
            outputs.contains(o) ==> removed.deep_view().contains(o),
{
    let left = without(outputs, removed.deep_view());
    without_members(outputs, removed.deep_view());
    if left.len() == 0 {
        assert forall|o: Seq<char>| #[trigger] outputs.contains(o) implies removed.deep_view().contains(
            o,
        ) by {
            assert(!left.contains(o));
        }
    } else {
        assert(left.contains(left[0]));
        assert(outputs.contains(left[0]));
    }
}

/// An output that an animation was told to leave gets no frame of it, then or after
/// any later event.
pub proof fn removed_outputs_stay_out(
    outputs: Seq<Seq<char>>,
    removed: Vec<String>,
    later: StopEvent,
    o: Seq<char>,
)
    requires
        removed.deep_view().contains(o),
    ensures
        !outputs_after(outputs, StopEvent::Remove(removed)).contains(o),
        !outputs_after(outputs_after(outputs, StopEvent::Remove(removed)), later).contains(o),
{
    let left = without(outputs, removed.deep_view());
    without_members(outputs, removed.deep_view());
    match later {
        StopEvent::Remove(more) => {
            without_members(left, more.deep_view());
        },
        _ => {},
    }
}

/// A message that names no output takes none away: it ends only an animation that
/// has no output left.
pub proof fn empty_message_is_harmless(outputs: Seq<Seq<char>>, removed: Vec<String>)
    requires
        removed@.len() == 0,
    ensures
        outputs_after(outputs, StopEvent::Remove(removed)) == outputs,
        ends(outputs, StopEvent::Remove(removed)) <==> outputs.len() == 0,
    decreases outputs.len(),
{
    reveal(Seq::filter);
    if outputs.len() > 0 {
        empty_message_is_harmless(outputs.drop_last(), removed);
        assert(!removed.deep_view().contains(outputs.last()));
        assert(outputs.drop_last().push(outputs.last()) =~= outputs);
    }
}

/// Where the outputs stand that are left after an event.
proof fn left_positions(outputs: Seq<Seq<char>>, event: StopEvent) -> (at: Seq<int>)
    ensures
        at.len() == outputs_after(outputs, event).len(),
        forall|k: int| 0 <= k < at.len() ==> 0 <= #[trigger] at[k] < outputs.len(),
        forall|k: int|
            0 <= k < at.len() ==> outputs_after(outputs, event)[k] == outputs[#[trigger] at[k]],
        forall|k: int, l: int| 0 <= k < l < at.len() ==> #[trigger] at[k] < #[trigger] at[l],
        forall|i: int|
            0 <= i < outputs.len() ==> (#[trigger] at.contains(i) <==> !(event is Remove
                && event->Remove_0.deep_view().contains(outputs[i]))),
{
    match event {
        StopEvent::Remove(removed) => kept_positions(outputs, removed.deep_view()),
        _ => {
            let at = Seq::new(outputs.len(), |k: int| k);
            assert forall|i: int| 0 <= i < outputs.len() implies at.contains(i) by {
                assert(at[i] == i);
            }
            at
        },
    }
}

/// After an event the frame goes, unchanged, to exactly the outputs that the event does
/// not take away, in their order; `at` is where they stood. Nothing goes out if the
/// stop channel is gone, or if the event took the last output away.
pub proof fn a_frame_goes_to_the_outputs_that_are_left(
    frame: Vec<u8>,
    outputs: &mut Vec<String>,
    event: StopEvent,
    r: Option<(Vec<String>, Vec<u8>)>,
) -> (at: Seq<int>)
    requires
        call_ensures(frame_message, (frame, outputs, event), r),
    ensures
        at.len() == final(outputs)@.len(),
        forall|k: int| 0 <= k < at.len() ==> 0 <= #[trigger] at[k] < old(outputs)@.len(),
        forall|k: int|
            0 <= k < at.len() ==> final(outputs).deep_view()[k]
                == old(outputs).deep_view()[#[trigger] at[k]],
        forall|k: int, l: int| 0 <= k < l < at.len() ==> #[trigger] at[k] < #[trigger] at[l],
        forall|i: int|
            0 <= i < old(outputs)@.len() ==> (#[trigger] at.contains(i) <==> !(event is Remove
                && event->Remove_0.deep_view().contains(old(outputs).deep_view()[i]))),
        r is None <==> (event is Disconnected || (event is Remove && final(outputs)@.len() == 0)),
        r matches Some(message) ==> {
            &&& message.0.deep_view() == final(outputs).deep_view()
            &&& message.1@ == frame@
        },
{
    let at = left_positions(old(outputs).deep_view(), event);
    assert(final(outputs).deep_view().len() == final(outputs)@.len());
    assert(old(outputs).deep_view().len() == old(outputs)@.len());
    at
}

/// Sending a frame hands it over once, to the outputs that the event leaves, and says to
/// exit exactly if it was not delivered; or nothing is sent and the animation is to
/// exit, because the stop channel is gone or the last output was taken away.
pub proof fn a_frame_is_sent_once_or_the_animation_ends<W, F>(
    frame: Vec<u8>,
    outputs: &mut Vec<String>,
    event: StopEvent,
    channel: W,
    send: &F,
    r: (W, bool),
) -> (at: Seq<int>) where F: Fn(W, Vec<String>, Vec<u8>) -> (W, bool)
    requires
        call_ensures(send_frame::<W, F>, (frame, outputs, event, channel, send), r),
    ensures
        at.len() == final(outputs)@.len(),
        forall|k: int| 0 <= k < at.len() ==> 0 <= #[trigger] at[k] < old(outputs)@.len(),
        forall|k: int|
            0 <= k < at.len() ==> final(outputs).deep_view()[k]
                == old(outputs).deep_view()[#[trigger] at[k]],
        forall|k: int, l: int| 0 <= k < l < at.len() ==> #[trigger] at[k] < #[trigger] at[l],
        forall|i: int|
            0 <= i < old(outputs)@.len() ==> (#[trigger] at.contains(i) <==> !(event is Remove
                && event->Remove_0.deep_view().contains(old(outputs).deep_view()[i]))),
        event is Disconnected || (event is Remove && final(outputs)@.len() == 0) ==> r.0 == channel
            && r.1,
        !(event is Disconnected || (event is Remove && final(outputs)@.len() == 0))
            ==> exists|o: Vec<String>, f: Vec<u8>, delivered: bool| #[trigger]
            call_ensures(*send, (channel, o, f), (r.0, delivered)) && delivered == !r.1
                && o.deep_view() == final(outputs).deep_view() && f@ == frame@,
{
    let at = left_positions(old(outputs).deep_view(), event);
    assert(final(outputs).deep_view().len() == final(outputs)@.len());
    assert(old(outputs).deep_view().len() == old(outputs)@.len());
    at
}

/// A frame waits for what is left of its time: what has passed and what is waited make up
/// the duration, and nothing is waited once it is over.
pub proof fn a_frame_waits_for_the_rest_of_its_time(duration_ms: u64, elapsed: u128, r: u128)
    requires
        call_ensures(frame_timeout, (duration_ms, elapsed), r),
    ensures
        elapsed <= 1_000_000 * duration_ms ==> r + elapsed == 1_000_000 * duration_ms,
        elapsed >= 1_000_000 * duration_ms ==> r == 0,
{
}

/// Any frame can be sent after any event over a channel that takes every message.
pub proof fn any_frame_can_be_sent<W, F>(
    frame: Vec<u8>,
    outputs: &mut Vec<String>,
    event: StopEvent,
    channel: W,
    send: &F,
) where F: Fn(W, Vec<String>, Vec<u8>) -> (W, bool)
    requires
        forall|o: Vec<String>, f: Vec<u8>| #[trigger] call_requires(*send, (channel, o, f)),
    ensures
        call_requires(send_frame::<W, F>, (frame, outputs, event, channel, send)),
{
}

} // verus!
