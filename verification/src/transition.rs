//! Fading from the image on screen to a new one.
//!
//! Images are byte sequences of four-byte pixels. Each frame of a transition
//! moves the first three bytes of every pixel towards the goal; the fourth one
//! stays as it is.
use vstd::prelude::*;

use crate::codec::FrameCodec;

verus! {

/// The most that a colour byte moves in one frame.
pub const STEP: u8 = 20;

/// The time between two frames of a transition, in milliseconds.
pub const FRAME_MS: u64 = 30;

/// How many bytes of an image of `len` bytes belong to whole pixels.
pub open spec fn whole_pixels(len: nat) -> nat {
    (len / 4 * 4) as nat
}

/// The position of a colour byte within the whole pixels of an image of `len` bytes.
pub open spec fn is_colour(len: nat, k: int) -> bool {
    0 <= k < whole_pixels(len) && k % 4 != 3
}

/// How far apart two bytes are.
pub open spec fn distance(a: u8, b: u8) -> int {
    if a > b {
        a - b
    } else {
        b - a
    }
}

/// One frame's move of a colour byte: to the goal where it is nearer than
/// `STEP`, and by exactly `STEP` towards it otherwise.
pub open spec fn step_byte(old: u8, goal: u8) -> u8 {
    if distance(old, goal) < STEP {
        goal
    } else if old > goal {
        (old - STEP) as u8
    } else {
        (old + STEP) as u8
    }
}

/// One frame's move of an image.
pub open spec fn step_image(old: Seq<u8>, goal: Seq<u8>) -> Seq<u8> {
    Seq::new(
        whole_pixels(old.len()),
        |k: int|
            if k % 4 == 3 {
                old[k]
            } else {
                step_byte(old[k], goal[k])
            },
    )
}

/// Every colour byte is near enough to reach the goal with the next frame.
pub open spec fn settled(old: Seq<u8>, goal: Seq<u8>) -> bool {
    forall|k: int| #[trigger] is_colour(old.len(), k) ==> distance(old[k], goal[k]) < STEP
}

/// The goal has a byte for every colour byte of the image.
pub open spec fn covers(goal: Seq<u8>, old: Seq<u8>) -> bool {
    whole_pixels(old.len()) <= goal.len() + 1
}

/// Every colour byte is the goal's.
pub open spec fn same_colours(img: Seq<u8>, goal: Seq<u8>) -> bool {
    forall|k: int| #[trigger] is_colour(img.len(), k) ==> img[k] == goal[k]
}

/// Whether `goal` has a byte for every colour byte of `old_img`.
pub fn goal_covers(goal: &[u8], old_img: &[u8]) -> (r: bool)
    ensures
        r == covers(goal@, old_img@),
{
    let whole: usize = old_img.len() / 4 * 4;
    whole == 0 || whole - 1 <= goal.len()
}

fn step_colour(old: u8, goal: u8) -> (r: (u8, bool))
    ensures
        r.0 == step_byte(old, goal),
        r.1 == (distance(old, goal) < STEP),
{
    let apart: u8 = if old > goal {
        old - goal
    } else {
        goal - old
    };
    if apart < STEP {
        (goal, true)
    } else if old > goal {
        (old - STEP, false)
    } else {
        (old + STEP, false)
    }
}

/// Computes one frame of a transition, and whether it is the last one.
pub fn next_image(old_img: &[u8], goal: &[u8]) -> (r: (Vec<u8>, bool))
    requires
        covers(goal@, old_img@),
    ensures
        r.0@ == step_image(old_img@, goal@),
        r.1 == settled(old_img@, goal@),
{
    let mut done: bool = true;
    let mut img: Vec<u8> = Vec::with_capacity(goal.len());
    let whole: usize = old_img.len() / 4 * 4;
    let mut k: usize = 0;
    while k < whole
        invariant
            k <= whole,
            whole == whole_pixels(old_img@.len()),
            covers(goal@, old_img@),
            img@ == step_image(old_img@, goal@).take(k as int),
            done == (forall|j: int|
                0 <= j < k && #[trigger] is_colour(old_img@.len(), j) ==> distance(
                    old_img@[j],
                    goal@[j],
                ) < STEP),
        decreases whole - k,
    {
        if k % 4 == 3 {
            img.push(old_img[k]);
        } else {
            let moved = step_colour(old_img[k], goal[k]);
            assert(is_colour(old_img@.len(), k as int));
            img.push(moved.0);
            done = done && moved.1;
        }
        k = k + 1;
    }
    (img, done)
}

/// A transition under way: what is left of it once its first frame was shown.
pub struct Transition {
    /// The image that the outputs show.
    pub old_img: Vec<u8>,
    /// The image that they are to show in the end.
    pub goal: Vec<u8>,
    /// The outputs that still take part.
    pub outputs: Vec<String>,
    /// Whether the last frame was made.
    pub done: bool,
}

/// What a transition does next.
pub enum TransitionAction {
    /// Send a frame, `FRAME_MS` after the one before it.
    Send(Vec<u8>),
    /// End.
    Stop,
}

/// `frame` takes an output from showing `before` to showing `after`, one step
/// nearer to `goal`.
pub open spec fn frame_shown<C, D>(
    codec: FrameCodec<C, D>,
    goal: Seq<u8>,
    before: Seq<u8>,
    frame: Seq<u8>,
    after: Seq<u8>,
) -> bool where C: Fn(&[u8], &[u8]) -> Vec<u8>, D: Fn(Vec<u8>, &[u8]) -> Vec<u8> {
    &&& codec.packs(before, step_image(before, goal), frame)
    &&& codec.unpacks(before, frame, after)
}

impl Transition {
    /// The transition that goes on from `old_img`.
    pub fn new(old_img: Vec<u8>, goal: Vec<u8>, outputs: Vec<String>) -> (r: Self)
        ensures
            r.old_img == old_img,
            r.goal == goal,
            r.outputs == outputs,
            !r.done,
    {
        Transition { old_img, goal, outputs, done: false }
    }

    /// Makes the next frame: one step from the image that is shown, packed
    /// against it. What is shown from then on is what unpacking that frame gives.
    pub fn next_frame<C, D>(&mut self, codec: &FrameCodec<C, D>) -> (frame: Vec<u8>) where
        C: Fn(&[u8], &[u8]) -> Vec<u8>,
        D: Fn(Vec<u8>, &[u8]) -> Vec<u8>,

        requires
            covers(old(self).goal@, old(self).old_img@),
            codec.can_show(
                old(self).old_img@,
                step_image(old(self).old_img@, old(self).goal@),
            ),
        ensures
            frame_shown(
                *codec,
                old(self).goal@,
                old(self).old_img@,
                frame@,
                final(self).old_img@,
            ),
            final(self).done == settled(old(self).old_img@, old(self).goal@),
            final(self).goal == old(self).goal,
            final(self).outputs == old(self).outputs,
    {
        let (img, done) = next_image(self.old_img.as_slice(), self.goal.as_slice());
        let frame = codec.mixed_comp(self.old_img.as_slice(), img.as_slice());
        codec.mixed_decomp(&mut self.old_img, frame.as_slice());
        self.done = done;
        frame
    }

    /// What to do after a frame, given whether sending it said to exit: stop then, or
    /// if it was the last frame, and otherwise send another one.
    pub fn after_frame<C, D>(&mut self, exit: bool, codec: &FrameCodec<C, D>) -> (action:
        TransitionAction) where
        C: Fn(&[u8], &[u8]) -> Vec<u8>,
        D: Fn(Vec<u8>, &[u8]) -> Vec<u8>,

        requires
            !exit && !old(self).done ==> {
                &&& covers(old(self).goal@, old(self).old_img@)
                &&& codec.can_show(
                    old(self).old_img@,
                    step_image(old(self).old_img@, old(self).goal@),
                )
            },
        ensures
            exit || old(self).done ==> action is Stop && *final(self) == *old(self),
            !exit && !old(self).done ==> {
                &&& action matches TransitionAction::Send(frame)
                &&& frame_shown(
                    *codec,
                    old(self).goal@,
                    old(self).old_img@,
                    frame@,
                    final(self).old_img@,
                )
                &&& final(self).done == settled(old(self).old_img@, old(self).goal@)
                &&& final(self).goal == old(self).goal
                &&& final(self).outputs == old(self).outputs
            },
    {
        if exit || self.done {
            TransitionAction::Stop
        } else {
            TransitionAction::Send(self.next_frame(codec))
        }
    }
}

/// A step brings every colour byte nearer to the goal by `STEP`, or all the way,
/// never past it, and leaves the fourth bytes alone.
pub proof fn step_approaches(old: Seq<u8>, goal: Seq<u8>, k: int)
    requires
        0 <= k < whole_pixels(old.len()),
    ensures
        step_image(old, goal).len() == whole_pixels(old.len()),
        k % 4 == 3 ==> step_image(old, goal)[k] == old[k],
        k % 4 != 3 ==> distance(step_image(old, goal)[k], goal[k]) == (if distance(
            old[k],
            goal[k],
        ) < STEP {
            0
        } else {
            distance(old[k], goal[k]) - STEP
        }),
{
}

/// The frame that ends a transition shows the goal's colours. An image that shows
/// them already is settled, and a step leaves its pixels as they are.
pub proof fn last_step_reaches_goal(old: Seq<u8>, goal: Seq<u8>)
    ensures
        settled(old, goal) ==> same_colours(step_image(old, goal), goal),
        same_colours(old, goal) ==> settled(old, goal) && step_image(old, goal) == old.take(
            whole_pixels(old.len()) as int,
        ),
{
    if settled(old, goal) {
        assert forall|k: int| #[trigger]
            is_colour(step_image(old, goal).len(), k) implies step_image(old, goal)[k]
            == goal[k] by {
            assert(is_colour(old.len(), k));
        }
    }
    if same_colours(old, goal) {
        assert forall|k: int| 0 <= k < whole_pixels(old.len()) implies step_image(old, goal)[k]
            == old[k] by {
            assert(k % 4 != 3 ==> is_colour(old.len(), k));
        }
        assert(step_image(old, goal) =~= old.take(whole_pixels(old.len()) as int));
    }
}

/// With a lossless codec a frame of a transition shows exactly the stepped image.
pub proof fn lossless_frame_shows_step<C, D>(
    codec: FrameCodec<C, D>,
    goal: Seq<u8>,
    before: Seq<u8>,
    frame: Seq<u8>,
    after: Seq<u8>,
) where C: Fn(&[u8], &[u8]) -> Vec<u8>, D: Fn(Vec<u8>, &[u8]) -> Vec<u8>
    requires
        codec.lossless(),
        before.len() % 4 == 0,
        frame_shown(codec, goal, before, frame, after),
    ensures
        after == step_image(before, goal),
        after.len() == before.len(),
{
    assert(step_image(before, goal).len() == before.len());
}

/// `farthest` is the largest distance of a colour byte from the goal, and zero if
/// there is none.
pub open spec fn is_farthest(img: Seq<u8>, goal: Seq<u8>, farthest: int) -> bool {
    &&& forall|k: int| #[trigger] is_colour(img.len(), k) ==> distance(img[k], goal[k]) <= farthest
    &&& farthest == 0 || exists|k: int| #[trigger]
        is_colour(img.len(), k) && distance(img[k], goal[k]) == farthest
}

/// `shown` is what outputs show that get `frames` of a transition, one after the other.
pub open spec fn transition_run<C, D>(
    codec: FrameCodec<C, D>,
    goal: Seq<u8>,
    shown: Seq<Seq<u8>>,
    frames: Seq<Seq<u8>>,
) -> bool where C: Fn(&[u8], &[u8]) -> Vec<u8>, D: Fn(Vec<u8>, &[u8]) -> Vec<u8> {
    &&& shown.len() == frames.len() + 1
    &&& forall|i: int|
        0 <= i < frames.len() ==> #[trigger] frame_shown(
            codec,
            goal,
            shown[i],
            frames[i],
            shown[i + 1],
        )
}

/// With a lossless codec a transition takes exactly one frame more than its largest
/// distance has whole steps: the frame after image `i` is the last one, or comes after
/// it, exactly if `i` is at least that number of steps.
pub proof fn transition_length<C, D>(
    codec: FrameCodec<C, D>,
    goal: Seq<u8>,
    shown: Seq<Seq<u8>>,
    frames: Seq<Seq<u8>>,
    farthest: int,
) where C: Fn(&[u8], &[u8]) -> Vec<u8>, D: Fn(Vec<u8>, &[u8]) -> Vec<u8>
    requires
        codec.lossless(),
        shown[0].len() % 4 == 0,
        transition_run(codec, goal, shown, frames),
        is_farthest(shown[0], goal, farthest),
    ensures
        forall|i: int|
            0 <= i < shown.len() ==> (settled(#[trigger] shown[i], goal) <==> i >= farthest
                / 20),
        forall|i: int| farthest / 20 < i < shown.len() ==> same_colours(#[trigger] shown[i], goal),
{
    assert forall|i: int| 0 <= i < shown.len() implies (settled(#[trigger] shown[i], goal) <==> i
        >= farthest / 20) by {
        images_after(codec, goal, shown, frames, i);
        if i >= farthest / 20 {
            assert forall|k: int| #[trigger] is_colour(shown[i].len(), k) implies distance(
                shown[i][k],
                goal[k],
            ) < STEP by {
                assert(is_colour(shown[0].len(), k));
            }
        } else {
            let k = choose|k: int| #[trigger]
                is_colour(shown[0].len(), k) && distance(shown[0][k], goal[k]) == farthest;
            assert(is_colour(shown[i].len(), k));
            assert(distance(shown[i][k], goal[k]) >= STEP);
        }
    }
    assert forall|i: int| farthest / 20 < i < shown.len() implies same_colours(
        #[trigger] shown[i],
        goal,
    ) by {
        images_after(codec, goal, shown, frames, i);
        assert forall|k: int| #[trigger] is_colour(shown[i].len(), k) implies shown[i][k]
            == goal[k] by {
            assert(is_colour(shown[0].len(), k));
            assert(distance(shown[i][k], goal[k]) == 0);
        }
    }
}

/// With a lossless codec every transition is over after at most thirteen frames:
/// whatever images it starts from, the twelfth frame leaves nothing farther than
/// one step from the goal, and the thirteenth shows the goal's colours. The fourth
/// bytes never change.
pub proof fn transition_ends<C, D>(
    codec: FrameCodec<C, D>,
    goal: Seq<u8>,
    shown: Seq<Seq<u8>>,
    frames: Seq<Seq<u8>>,
) where C: Fn(&[u8], &[u8]) -> Vec<u8>, D: Fn(Vec<u8>, &[u8]) -> Vec<u8>
    requires
        codec.lossless(),
        shown[0].len() % 4 == 0,
        transition_run(codec, goal, shown, frames),
    ensures
        forall|i: int| 12 <= i < shown.len() ==> settled(#[trigger] shown[i], goal),
        forall|i: int| 13 <= i < shown.len() ==> same_colours(#[trigger] shown[i], goal),
        forall|i: int, k: int|
            0 <= i < shown.len() && 0 <= k < shown[0].len() && k % 4 == 3
                ==> #[trigger] shown[i][k] == shown[0][k],
{
    assert forall|i: int| 12 <= i < shown.len() implies settled(#[trigger] shown[i], goal) by {
        images_after(codec, goal, shown, frames, i);
        assert forall|k: int| #[trigger] is_colour(shown[i].len(), k) implies distance(
            shown[i][k],
            goal[k],
        ) < STEP by {
            assert(is_colour(shown[0].len(), k));
        }
    }
    assert forall|i: int| 13 <= i < shown.len() implies same_colours(
        #[trigger] shown[i],
        goal,
    ) by {
        images_after(codec, goal, shown, frames, i);
        assert forall|k: int| #[trigger] is_colour(shown[i].len(), k) implies shown[i][k]
            == goal[k] by {
            assert(is_colour(shown[0].len(), k));
            assert(distance(shown[i][k], goal[k]) == 0);
        }
    }
    assert forall|i: int, k: int|
        0 <= i < shown.len() && 0 <= k < shown[0].len() && k % 4
            == 3 implies #[trigger] shown[i][k] == shown[0][k] by {
        images_after(codec, goal, shown, frames, i);
    }
}

proof fn images_after<C, D>(
    codec: FrameCodec<C, D>,
    goal: Seq<u8>,
    shown: Seq<Seq<u8>>,
    frames: Seq<Seq<u8>>,
    i: int,
) where C: Fn(&[u8], &[u8]) -> Vec<u8>, D: Fn(Vec<u8>, &[u8]) -> Vec<u8>
    requires
        codec.lossless(),
        shown[0].len() % 4 == 0,
        transition_run(codec, goal, shown, frames),
        0 <= i < shown.len(),
    ensures
        shown[i].len() == shown[0].len(),
        forall|k: int| #[trigger]
            is_colour(shown[0].len(), k) ==> distance(shown[i][k], goal[k]) == (if 20 * i
                <= distance(shown[0][k], goal[k]) {
                distance(shown[0][k], goal[k]) - 20 * i
            } else {
                0
            }),
        forall|k: int|
            0 <= k < shown[0].len() && k % 4 == 3 ==> #[trigger] shown[i][k] == shown[0][k],
    decreases i,
{
    if i > 0 {
        images_after(codec, goal, shown, frames, i - 1);
        assert(frame_shown(codec, goal, shown[i - 1], frames[i - 1], shown[i - 1 + 1]));
        lossless_frame_shows_step(codec, goal, shown[i - 1], frames[i - 1], shown[i]);
        assert forall|k: int| #[trigger] is_colour(shown[0].len(), k) implies distance(
            shown[i][k],
            goal[k],
        ) == (if 20 * i <= distance(shown[0][k], goal[k]) {
            distance(shown[0][k], goal[k]) - 20 * i
        } else {
            0
        }) by {
            step_approaches(shown[i - 1], goal, k);
        }
    }
}

/// One frame of a transition, in plain numbers. A byte of colour goes down by 20, but
/// not below the goal, or up by 20, but not above it; the fourth byte of a pixel stays,
/// and bytes after the last whole pixel are dropped. The frame is the last one exactly if
/// every colour was less than 20 away from the goal.
pub proof fn a_frame_moves_colours_by_twenty(old_img: &[u8], goal: &[u8], r: (Vec<u8>, bool))
    requires
        call_ensures(next_image, (old_img, goal), r),
    ensures
        r.0@.len() == old_img@.len() - old_img@.len() % 4,
        forall|k: int|
            0 <= k < r.0@.len() && k % 4 == 3 ==> #[trigger] r.0@[k] == old_img@[k],
        forall|k: int|
            0 <= k < r.0@.len() && k % 4 != 3 && old_img@[k] >= goal@[k] ==> {
                &&& goal@[k] <= #[trigger] r.0@[k] <= old_img@[k]
                &&& r.0@[k] == (if old_img@[k] - 20 > goal@[k] {
                    old_img@[k] - 20
                } else {
                    goal@[k] as int
                })
            },
        forall|k: int|
            0 <= k < r.0@.len() && k % 4 != 3 && old_img@[k] <= goal@[k] ==> {
                &&& old_img@[k] <= #[trigger] r.0@[k] <= goal@[k]
                &&& r.0@[k] == (if old_img@[k] + 20 < goal@[k] {
                    old_img@[k] + 20
                } else {
                    goal@[k] as int
                })
            },
        r.1 <==> forall|k: int|
            0 <= k < r.0@.len() && k % 4 != 3 ==> -20 < #[trigger] old_img@[k] - goal@[k] < 20,
{
    if r.1 {
        assert forall|k: int| 0 <= k < r.0@.len() && k % 4 != 3 implies -20
            < #[trigger] old_img@[k] - goal@[k] < 20 by {
            assert(is_colour(old_img@.len(), k));
        }
    }
    if forall|k: int|
        0 <= k < r.0@.len() && k % 4 != 3 ==> -20 < #[trigger] old_img@[k] - goal@[k] < 20 {
        assert forall|k: int| #[trigger] is_colour(old_img@.len(), k) implies distance(
            old_img@[k],
            goal@[k],
        ) < STEP by {
            assert(-20 < old_img@[k] - goal@[k] < 20);
        }
    }
}

/// A frame can be made of every two images of which the goal has a byte for each byte of
/// colour; whether it has is what `goal_covers` says.
pub proof fn any_goal_with_enough_colours_will_do(old_img: &[u8], goal: &[u8], r: bool)
    ensures
        old_img@.len() - old_img@.len() % 4 <= goal@.len() + 1 ==> call_requires(
            next_image,
            (old_img, goal),
        ),
        call_ensures(goal_covers, (goal, old_img), r) ==> (r <==> old_img@.len() - old_img@.len()
            % 4 <= goal@.len() + 1),
{
}

/// An image is settled exactly if every colour byte is less than 20 away from the goal.
pub proof fn settled_in_plain_numbers(old: Seq<u8>, goal: Seq<u8>)
    ensures
        settled(old, goal) <==> forall|k: int|
            0 <= k < old.len() - old.len() % 4 && k % 4 != 3 ==> -20 < #[trigger] old[k] - goal[k]
                < 20,
{
    if settled(old, goal) {
        assert forall|k: int| 0 <= k < old.len() - old.len() % 4 && k % 4 != 3 implies -20
            < #[trigger] old[k] - goal[k] < 20 by {
            assert(is_colour(old.len(), k));
        }
    }
    if forall|k: int|
        0 <= k < old.len() - old.len() % 4 && k % 4 != 3 ==> -20 < #[trigger] old[k] - goal[k]
            < 20 {
        assert forall|k: int| #[trigger] is_colour(old.len(), k) implies distance(old[k], goal[k])
            < STEP by {
            assert(-20 < old[k] - goal[k] < 20);
        }
    }
}

/// A transition under way packs, against what is shown, an image whose colours are by
/// at most 20 nearer to the goal, and goes on from what applying the frame gives. It is
/// done once every colour was less than 20 away.
pub proof fn a_transition_packs_the_moved_image<C, D>(
    rest: &mut Transition,
    codec: &FrameCodec<C, D>,
    frame: Vec<u8>,
) where C: Fn(&[u8], &[u8]) -> Vec<u8>, D: Fn(Vec<u8>, &[u8]) -> Vec<u8>
    requires
        call_ensures(Transition::next_frame::<C, D>, (rest, codec), frame),
    ensures
        exists|a: &[u8], b: &[u8], f: Vec<u8>| #[trigger]
            call_ensures(codec.comp, (a, b), f) && {
                &&& f@ == frame@
                &&& a@ == old(rest).old_img@
                &&& b@.len() == old(rest).old_img@.len() - old(rest).old_img@.len() % 4
                &&& forall|k: int|
                    0 <= k < b@.len() && k % 4 == 3 ==> #[trigger] b@[k] == old(rest).old_img@[k]
                &&& forall|k: int|
                    0 <= k < b@.len() && k % 4 != 3
                        ==> #[trigger] b@[k] == (if old(rest).old_img@[k] - 20
                        > old(rest).goal@[k] {
                        old(rest).old_img@[k] - 20
                    } else if old(rest).old_img@[k] + 20 < old(rest).goal@[k] {
                        old(rest).old_img@[k] + 20
                    } else {
                        old(rest).goal@[k] as int
                    })
            },
        exists|c: Vec<u8>, p: &[u8], s: Vec<u8>| #[trigger]
            call_ensures(codec.decomp, (c, p), s) && c@ == old(rest).old_img@ && p@ == frame@
                && s@ == final(rest).old_img@,
        final(rest).done <==> (forall|k: int|
            0 <= k < old(rest).old_img@.len() - old(rest).old_img@.len() % 4 && k % 4 != 3 ==> -20
                < #[trigger] old(rest).old_img@[k] - old(rest).goal@[k] < 20),
        final(rest).goal@ == old(rest).goal@,
        final(rest).outputs.deep_view() == old(rest).outputs.deep_view(),
{
    let before = old(rest).old_img@;
    let goal = old(rest).goal@;
    assert(frame_shown(*codec, goal, before, frame@, final(rest).old_img@));
    let (a, b, f) = choose|a: &[u8], b: &[u8], f: Vec<u8>|
        a@ == before && b@ == step_image(before, goal) && f@ == frame@
            && #[trigger] call_ensures(codec.comp, (a, b), f);
    assert(call_ensures(codec.comp, (a, b), f));
    settled_in_plain_numbers(before, goal);
}

/// After a frame a transition stops, and changes nothing, exactly if sending the frame
/// said to exit or the frame was the last one; otherwise it sends the next frame.
pub proof fn a_transition_goes_on_until_it_is_done<C, D>(
    rest: &mut Transition,
    exit: bool,
    codec: &FrameCodec<C, D>,
    action: TransitionAction,
) where C: Fn(&[u8], &[u8]) -> Vec<u8>, D: Fn(Vec<u8>, &[u8]) -> Vec<u8>
    requires
        call_ensures(Transition::after_frame::<C, D>, (rest, exit, codec), action),
    ensures
        action is Stop <==> exit || old(rest).done,
        action is Stop ==> *final(rest) == *old(rest),
        action matches TransitionAction::Send(frame) ==> {
            &&& exists|a: &[u8], b: &[u8], f: Vec<u8>| #[trigger]
                call_ensures(codec.comp, (a, b), f) && {
                    &&& f@ == frame@
                    &&& a@ == old(rest).old_img@
                    &&& b@.len() == old(rest).old_img@.len() - old(rest).old_img@.len() % 4
                    &&& forall|k: int|
                        0 <= k < b@.len() && k % 4 == 3
                            ==> #[trigger] b@[k] == old(rest).old_img@[k]
                    &&& forall|k: int|
                        0 <= k < b@.len() && k % 4 != 3
                            ==> #[trigger] b@[k] == (if old(rest).old_img@[k] - 20
                            > old(rest).goal@[k] {
                            old(rest).old_img@[k] - 20
                        } else if old(rest).old_img@[k] + 20 < old(rest).goal@[k] {
                            old(rest).old_img@[k] + 20
                        } else {
                            old(rest).goal@[k] as int
                        })
                }
            &&& exists|c: Vec<u8>, p: &[u8], s: Vec<u8>| #[trigger]
                call_ensures(codec.decomp, (c, p), s) && c@ == old(rest).old_img@
                    && p@ == frame@ && s@ == final(rest).old_img@
            &&& final(rest).done <==> (forall|k: int|
                0 <= k < old(rest).old_img@.len() - old(rest).old_img@.len() % 4
                    && k % 4 != 3 ==> -20
                    < #[trigger] old(rest).old_img@[k] - old(rest).goal@[k] < 20)
            &&& final(rest).goal@ == old(rest).goal@
            &&& final(rest).outputs.deep_view() == old(rest).outputs.deep_view()
        },
{
    let before = old(rest).old_img@;
    let goal = old(rest).goal@;
    if action is Send {
        let frame = action->Send_0@;
        assert(frame_shown(*codec, goal, before, frame, final(rest).old_img@));
        let (a, b, f) = choose|a: &[u8], b: &[u8], f: Vec<u8>|
            a@ == before && b@ == step_image(before, goal) && f@ == frame
                && #[trigger] call_ensures(codec.comp, (a, b), f);
        assert(call_ensures(codec.comp, (a, b), f));
        settled_in_plain_numbers(before, goal);
    }
}

/// With functions that take all images, a transition goes on from every image for each of
/// whose colours the goal has a byte; one that stops needs nothing.
pub proof fn any_transition_goes_on<C, D>(
    rest: &mut Transition,
    exit: bool,
    codec: &FrameCodec<C, D>,
) where C: Fn(&[u8], &[u8]) -> Vec<u8>, D: Fn(Vec<u8>, &[u8]) -> Vec<u8>
    requires
        forall|a: &[u8], b: &[u8]| #[trigger] call_requires(codec.comp, (a, b)),
        forall|c: Vec<u8>, p: &[u8]| #[trigger] call_requires(codec.decomp, (c, p)),
    ensures
        old(rest).old_img@.len() - old(rest).old_img@.len() % 4 <= old(rest).goal@.len() + 1 ==> {
            &&& call_requires(Transition::next_frame::<C, D>, (rest, codec))
            &&& call_requires(Transition::after_frame::<C, D>, (rest, exit, codec))
        },
        exit || old(rest).done ==> call_requires(
            Transition::after_frame::<C, D>,
            (rest, exit, codec),
        ),
{
}

/// Frames that follow each other move every colour straight to the goal: after `i` of them
/// a colour is `20 * i` nearer, or there. The fourth bytes never change. A frame is the
/// last one exactly if no colour was more than so many steps of 20 away from the goal.
pub proof fn a_fade_goes_straight_to_the_goal(
    goal: &[u8],
    shown: Seq<&[u8]>,
    made: Seq<(Vec<u8>, bool)>,
    i: int,
)
    requires
        shown.len() == made.len() + 1,
        shown[0]@.len() % 4 == 0,
        forall|n: int|
            0 <= n < made.len() ==> call_ensures(
                next_image,
                (shown[n], goal),
                #[trigger] made[n],
            ),
        forall|n: int, m: int|
            0 <= n && m == n + 1 && m < shown.len() ==> (#[trigger] made[n]).0@ == (
            #[trigger] shown[m])@,
        0 <= i < shown.len(),
    ensures
        shown[i]@.len() == shown[0]@.len(),
        forall|k: int|
            0 <= k < shown[0]@.len() && k % 4 == 3 ==> #[trigger] shown[i]@[k] == shown[0]@[k],
        forall|k: int|
            0 <= k < shown[0]@.len() && k % 4 != 3 ==> #[trigger] shown[i]@[k] == (if shown[0]@[k]
                - 20 * i > goal@[k] {
                shown[0]@[k] - 20 * i
            } else if shown[0]@[k] + 20 * i < goal@[k] {
                shown[0]@[k] + 20 * i
            } else {
                goal@[k] as int
            }),
        i < made.len() ==> (made[i].1 <==> forall|k: int|
            0 <= k < shown[0]@.len() && k % 4 != 3 ==> -20 * (i + 1) < #[trigger] shown[0]@[k]
                - goal@[k] < 20 * (i + 1)),
    decreases i,
{
    if i > 0 {
        a_fade_goes_straight_to_the_goal(goal, shown, made, i - 1);
        a_frame_moves_colours_by_twenty(shown[i - 1], goal, made[i - 1]);
        assert(made[i - 1].0@ == shown[i]@);
        assert forall|k: int| 0 <= k < shown[0]@.len() && k % 4
            == 3 implies #[trigger] shown[i]@[k] == shown[0]@[k] by {
            assert(made[i - 1].0@[k] == shown[i - 1]@[k]);
        }
        assert forall|k: int| 0 <= k < shown[0]@.len() && k % 4
            != 3 implies #[trigger] shown[i]@[k] == (if shown[0]@[k] - 20 * i > goal@[k] {
            shown[0]@[k] - 20 * i
        } else if shown[0]@[k] + 20 * i < goal@[k] {
            shown[0]@[k] + 20 * i
        } else {
            goal@[k] as int
        }) by {
            let before = shown[i - 1]@[k];
            let after = made[i - 1].0@[k];
            assert(before == (if shown[0]@[k] - 20 * (i - 1) > goal@[k] {
                shown[0]@[k] - 20 * (i - 1)
            } else if shown[0]@[k] + 20 * (i - 1) < goal@[k] {
                shown[0]@[k] + 20 * (i - 1)
            } else {
                goal@[k] as int
            }));
        }
    }
    if i < made.len() {
        a_frame_moves_colours_by_twenty(shown[i], goal, made[i]);
        if made[i].1 {
            assert forall|k: int| 0 <= k < shown[0]@.len() && k % 4 != 3 implies -20 * (i + 1)
                < #[trigger] shown[0]@[k] - goal@[k] < 20 * (i + 1) by {
                assert(-20 < shown[i]@[k] - goal@[k] < 20);
            }
        }
        if forall|k: int|
            0 <= k < shown[0]@.len() && k % 4 != 3 ==> -20 * (i + 1) < #[trigger] shown[0]@[k]
                - goal@[k] < 20 * (i + 1) {
            assert forall|k: int| 0 <= k < made[i].0@.len() && k % 4 != 3 implies -20
                < #[trigger] shown[i]@[k] - goal@[k] < 20 by {
                assert(-20 * (i + 1) < shown[0]@[k] - goal@[k] < 20 * (i + 1));
            }
        }
    }
}

} // verus!
