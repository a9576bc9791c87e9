//! Playing an animated image: its frames are packed as they are decoded, and the
//! packed ones are then played over and over.
use image::imageops::FilterType;
use image::DynamicImage;
use vstd::arithmetic::div_mod::{
    lemma_add_mod_noop, lemma_fundamental_div_mod, lemma_fundamental_div_mod_converse,
    lemma_mod_self_0, lemma_mod_twice, lemma_small_mod,
};
use vstd::prelude::*;

use crate::codec::FrameCodec;
use crate::copies::copy_bytes;
use crate::resize::{
    bgra_pixels, fills, fits, image_size, img_resize, is_showable, resized,
};

verus! {

/// How often an animation that waits for a transition looks whether that has
/// finished, in milliseconds.
pub const WAIT_MS: u64 = 30;

/// The milliseconds of a delay that is given as a fraction of them, rounded down.
pub fn frame_duration(delay: (u32, u32)) -> (ms: u64)
    requires
        delay.1 != 0,
    ensures
        ms == delay.0 / delay.1,
{
    (delay.0 / delay.1) as u64
}

/// An animated image that is about to be played.
pub struct Gif {
    /// The first frame, as the outputs show it.
    pub first_frame: Vec<u8>,
    pub width: u32,
    pub height: u32,
    pub outputs: Vec<String>,
    /// Whether the transition to the first frame has to finish first.
    pub after_transition: bool,
}

impl Gif {
    /// How long to wait before the animation starts, in milliseconds, given whether the
    /// transition before it still took an empty message; nothing if it starts now. An
    /// animation that follows no transition does not wait.
    pub fn wait(&self, delivered: bool) -> (r: Option<u64>)
        ensures
            r == (if self.after_transition && delivered {
                Some(WAIT_MS)
            } else {
                None
            }),
    {
        if self.after_transition && delivered {
            Some(WAIT_MS)
        } else {
            None
        }
    }
}

/// An animation whose frames are being decoded.
pub struct Animation {
    /// The first frame.
    pub first_frame: Vec<u8>,
    /// How long the first frame stays, in milliseconds.
    pub first_duration: u64,
    pub width: u32,
    pub height: u32,
    /// What the outputs show.
    pub canvas: Vec<u8>,
    /// The packed frames after the first one, each with its duration in milliseconds.
    pub cached_frames: Vec<(Vec<u8>, u64)>,
}

impl Animation {
    /// Starts the animation: the outputs show its first frame.
    pub fn new(first_frame: Vec<u8>, width: u32, height: u32, delay: (u32, u32)) -> (r: Self)
        requires
            delay.1 != 0,
        ensures
            r.first_frame == first_frame,
            r.first_duration == delay.0 / delay.1,
            r.width == width,
            r.height == height,
            r.canvas@ == first_frame@,
            r.cached_frames@.len() == 0,
    {
        let canvas = copy_bytes(&first_frame);
        Animation {
            first_frame,
            first_duration: frame_duration(delay),
            width,
            height,
            canvas,
            cached_frames: Vec::new(),
        }
    }

    /// What packing the image `img` as the next frame makes of an animation.
    pub open spec fn frame_added<C, D>(
        before: Self,
        img: Seq<u8>,
        duration: u64,
        codec: FrameCodec<C, D>,
        frame: Seq<u8>,
        after: Self,
    ) -> bool where C: Fn(&[u8], &[u8]) -> Vec<u8>, D: Fn(Vec<u8>, &[u8]) -> Vec<u8> {
        &&& codec.packs(before.canvas@, img, frame)
        &&& codec.unpacks(before.canvas@, frame, after.canvas@)
        &&& after.cached_frames@.len() == before.cached_frames@.len() + 1
        &&& after.cached_frames@.drop_last() == before.cached_frames@
        &&& after.cached_frames@.last().0@ == frame
        &&& after.cached_frames@.last().1 == duration
        &&& after.first_frame == before.first_frame
        &&& after.first_duration == before.first_duration
        &&& after.width == before.width
        &&& after.height == before.height
    }

    /// Packs an image of the outputs' size as the next frame, and keeps a copy of it
    /// for playing it again.
    pub fn add_frame<C, D>(
        &mut self,
        img: &Vec<u8>,
        duration: u64,
        codec: &FrameCodec<C, D>,
    ) -> (frame: Vec<u8>) where
        C: Fn(&[u8], &[u8]) -> Vec<u8>,
        D: Fn(Vec<u8>, &[u8]) -> Vec<u8>,

        requires
            codec.can_show(old(self).canvas@, img@),
        ensures
            Self::frame_added(*old(self), img@, duration, *codec, frame@, *final(self)),
    {
        let frame = codec.mixed_comp(self.canvas.as_slice(), img.as_slice());
        codec.mixed_decomp(&mut self.canvas, frame.as_slice());
        let kept = copy_bytes(&frame);
        let ghost before = self.cached_frames@;
        self.cached_frames.push((kept, duration));
        assert(self.cached_frames@.drop_last() =~= before);
        frame
    }

    /// Takes a decoded frame: brings it to the outputs' size, packs it, and gives the
    /// packed frame with its duration in milliseconds.
    pub fn next_frame<C, D>(
        &mut self,
        picture: DynamicImage,
        delay: (u32, u32),
        filter: FilterType,
        codec: &FrameCodec<C, D>,
    ) -> (r: (Vec<u8>, u64)) where
        C: Fn(&[u8], &[u8]) -> Vec<u8>,
        D: Fn(Vec<u8>, &[u8]) -> Vec<u8>,

        requires
            delay.1 != 0,
            is_showable(picture, old(self).width, old(self).height, filter),
            forall|img: Seq<u8>| #[trigger]
                resized(picture, old(self).width, old(self).height, filter, img)
                    ==> codec.can_show(old(self).canvas@, img),
        ensures
            r.1 == delay.0 / delay.1,
            exists|img: Seq<u8>| #[trigger]
                resized(picture, old(self).width, old(self).height, filter, img)
                    && Self::frame_added(*old(self), img, r.1, *codec, r.0@, *final(self)),
    {
        let duration: u64 = frame_duration(delay);
        let img = img_resize(picture, self.width, self.height, filter);
        let frame = self.add_frame(&img, duration, codec);
        (frame, duration)
    }

    /// What closing an animation gives to play: the way back to the first frame, then
    /// the frames that were kept; nothing if none were.
    pub open spec fn closed_to<C, D>(
        self,
        codec: FrameCodec<C, D>,
        r: Option<Seq<(Vec<u8>, u64)>>,
    ) -> bool where C: Fn(&[u8], &[u8]) -> Vec<u8>, D: Fn(Vec<u8>, &[u8]) -> Vec<u8> {
        match r {
            Some(frames) => {
                &&& self.cached_frames@.len() > 0
                &&& frames.len() == self.cached_frames@.len() + 1
                &&& codec.packs(self.canvas@, self.first_frame@, frames[0].0@)
                &&& frames[0].1 == self.first_duration
                &&& frames.skip(1) == self.cached_frames@
            },
            None => self.cached_frames@.len() == 0,
        }
    }

    /// Closes the animation once all its frames are decoded: the way back to the
    /// first frame is packed and comes before the others. A single frame is no
    /// animation, and gives nothing to play.
    pub fn finish<C, D>(self, codec: &FrameCodec<C, D>) -> (r: Option<Vec<(Vec<u8>, u64)>>) where
        C: Fn(&[u8], &[u8]) -> Vec<u8>,
        D: Fn(Vec<u8>, &[u8]) -> Vec<u8>,

        requires
            codec.can_pack(self.canvas@, self.first_frame@),
        ensures
            match r {
                Some(frames) => self.closed_to(*codec, Some(frames@)),
                None => self.closed_to(*codec, None),
            },
    {
        let first = codec.mixed_comp(self.canvas.as_slice(), self.first_frame.as_slice());
        let mut frames: Vec<(Vec<u8>, u64)> = self.cached_frames;
        frames.insert(0, (first, self.first_duration));
        if frames.len() == 1 {
            None
        } else {
            assert(frames@.skip(1) =~= self.cached_frames@);
            Some(frames)
        }
    }
}

/// The endless playback of packed frames.
pub struct Playback {
    pub frames: Vec<(Vec<u8>, u64)>,
    /// The frame to be played next.
    pub next: usize,
}

impl Playback {
    /// There is a frame to be played next.
    pub open spec fn valid(&self) -> bool {
        self.next < self.frames@.len()
    }

    /// Starts with the first frame.
    pub fn new(frames: Vec<(Vec<u8>, u64)>) -> (r: Self)
        requires
            frames@.len() > 0,
        ensures
            r.valid(),
            r.frames == frames,
            r.next == 0,
    {
        Playback { frames, next: 0 }
    }

    /// Gives the next frame with its duration in milliseconds; after the last one
    /// comes the first one again.
    pub fn next_frame(&mut self) -> (r: (Vec<u8>, u64))
        requires
            old(self).valid(),
        ensures
            final(self).valid(),
            r.0@ == old(self).frames@[old(self).next as int].0@,
            r.1 == old(self).frames@[old(self).next as int].1,
            final(self).frames == old(self).frames,
            final(self).next == (old(self).next + 1) % (old(self).frames@.len() as int),
    {
        let at: usize = self.next;
        let img = copy_bytes(&self.frames[at].0);
        let duration: u64 = self.frames[at].1;
        self.next = if at < self.frames.len() - 1 {
            at + 1
        } else {
            0
        };
        proof {
            let n = self.frames@.len() as int;
            if at + 1 < n {
                lemma_small_mod((at + 1) as nat, n as nat);
            } else {
                lemma_mod_self_0(n);
            }
        }
        (img, duration)
    }
}

/// How far an animation has come.
pub enum Phase {
    /// Its frames are being decoded, and shown as they come.
    Decoding(Animation),
    /// Its frames are played over and over.
    Playing(Playback),
    /// It has ended.
    Over,
}

/// What an animation does next.
pub enum PlayerAction {
    /// Decode another frame.
    Decode,
    /// Send a frame, so many milliseconds after the one before it.
    Send(Vec<u8>, u64),
    /// End.
    Stop,
}

/// An animation that is being shown.
pub struct Player {
    /// The outputs that still show the animation.
    pub outputs: Vec<String>,
    pub phase: Phase,
}

impl Player {
    /// While the animation plays, there is a frame to be played next.
    pub open spec fn valid(&self) -> bool {
        self.phase matches Phase::Playing(playback) ==> playback.valid()
    }

    /// Starts an animation, given the delay of its first frame. The first thing it
    /// does is to decode another frame.
    pub fn new(gif: Gif, delay: (u32, u32)) -> (r: Self)
        requires
            delay.1 != 0,
        ensures
            r.valid(),
            r.outputs == gif.outputs,
            r.phase matches Phase::Decoding(animation) && {
                &&& animation.first_frame == gif.first_frame
                &&& animation.first_duration == delay.0 / delay.1
                &&& animation.width == gif.width
                &&& animation.height == gif.height
                &&& animation.canvas@ == gif.first_frame@
                &&& animation.cached_frames@.len() == 0
            },
    {
        let animation = Animation::new(gif.first_frame, gif.width, gif.height, delay);
        Player { outputs: gif.outputs, phase: Phase::Decoding(animation) }
    }

    /// What to do with a frame that was decoded: pack it and send it.
    pub fn decoded<C, D>(
        &mut self,
        picture: DynamicImage,
        delay: (u32, u32),
        filter: FilterType,
        codec: &FrameCodec<C, D>,
    ) -> (action: PlayerAction) where
        C: Fn(&[u8], &[u8]) -> Vec<u8>,
        D: Fn(Vec<u8>, &[u8]) -> Vec<u8>,

        requires
            delay.1 != 0,
            old(self).phase matches Phase::Decoding(animation) && {
                &&& is_showable(picture, animation.width, animation.height, filter)
                &&& forall|img: Seq<u8>| #[trigger]
                    resized(picture, animation.width, animation.height, filter, img)
                        ==> codec.can_show(animation.canvas@, img)
            },
        ensures
            final(self).valid(),
            final(self).outputs == old(self).outputs,
            action matches PlayerAction::Send(frame, duration) && {
                &&& duration == delay.0 / delay.1
                &&& final(self).phase matches Phase::Decoding(after)
                &&& exists|img: Seq<u8>| #[trigger]
                    resized(
                        picture,
                        old(self).phase->Decoding_0.width,
                        old(self).phase->Decoding_0.height,
                        filter,
                        img,
                    ) && Animation::frame_added(
                        old(self).phase->Decoding_0,
                        img,
                        duration,
                        *codec,
                        frame@,
                        after,
                    )
            },
    {
        match &mut self.phase {
            Phase::Decoding(animation) => {
                let (frame, duration) = animation.next_frame(picture, delay, filter, codec);
                PlayerAction::Send(frame, duration)
            },
            _ => PlayerAction::Stop,
        }
    }

    /// Like `decoded`, for a frame of any size: gives nothing, and leaves the animation
    /// as it is, where the frame cannot be brought to the size of the outputs.
    pub fn try_decoded<C, D>(
        &mut self,
        picture: DynamicImage,
        delay: (u32, u32),
        filter: FilterType,
        codec: &FrameCodec<C, D>,
    ) -> (r: Option<PlayerAction>) where
        C: Fn(&[u8], &[u8]) -> Vec<u8>,
        D: Fn(Vec<u8>, &[u8]) -> Vec<u8>,

        requires
            delay.1 != 0,
            old(self).phase matches Phase::Decoding(animation) && forall|img: Seq<u8>| #[trigger]
                resized(picture, animation.width, animation.height, filter, img)
                    ==> codec.can_show(animation.canvas@, img),
        ensures
            r is Some <==> is_showable(
                picture,
                old(self).phase->Decoding_0.width,
                old(self).phase->Decoding_0.height,
                filter,
            ),
            r is None ==> *final(self) == *old(self),
            r matches Some(action) ==> {
                &&& final(self).valid()
                &&& final(self).outputs == old(self).outputs
                &&& action matches PlayerAction::Send(frame, duration)
                &&& duration == delay.0 / delay.1
                &&& final(self).phase matches Phase::Decoding(after)
                &&& exists|img: Seq<u8>| #[trigger]
                    resized(
                        picture,
                        old(self).phase->Decoding_0.width,
                        old(self).phase->Decoding_0.height,
                        filter,
                        img,
                    ) && Animation::frame_added(
                        old(self).phase->Decoding_0,
                        img,
                        duration,
                        *codec,
                        frame@,
                        after,
                    )
            },
    {
        let size: (u32, u32) = match &self.phase {
            Phase::Decoding(animation) => (animation.width, animation.height),
            _ => (0, 0),
        };
        if fits(&picture, size.0, size.1, filter) {
            Some(self.decoded(picture, delay, filter, codec))
        } else {
            None
        }
    }

    /// What to do when there is no other frame to decode: play those that were
    /// decoded over and over, beginning with the first one, or stop if there was only
    /// one.
    pub fn decoded_all<C, D>(&mut self, codec: &FrameCodec<C, D>) -> (action: PlayerAction) where
        C: Fn(&[u8], &[u8]) -> Vec<u8>,
        D: Fn(Vec<u8>, &[u8]) -> Vec<u8>,

        requires
            old(self).phase matches Phase::Decoding(animation) && codec.can_pack(
                animation.canvas@,
                animation.first_frame@,
            ),
        ensures
            final(self).valid(),
            final(self).outputs == old(self).outputs,
            old(self).phase->Decoding_0.cached_frames@.len() == 0 ==> {
                &&& action is Stop
                &&& final(self).phase is Over
            },
            old(self).phase->Decoding_0.cached_frames@.len() > 0 ==> {
                &&& final(self).phase matches Phase::Playing(playback)
                &&& old(self).phase->Decoding_0.closed_to(*codec, Some(playback.frames@))
                &&& playback.next == 1
                &&& action matches PlayerAction::Send(frame, duration)
                &&& frame@ == playback.frames@[0].0@
                &&& duration == playback.frames@[0].1
            },
    {
        let mut phase = Phase::Over;
        std::mem::swap(&mut phase, &mut self.phase);
        match phase {
            Phase::Decoding(animation) => match animation.finish(codec) {
                Some(frames) => {
                    let mut playback = Playback::new(frames);
                    let (frame, duration) = playback.next_frame();
                    proof {
                        lemma_small_mod(1, playback.frames@.len());
                    }
                    self.phase = Phase::Playing(playback);
                    PlayerAction::Send(frame, duration)
                },
                None => PlayerAction::Stop,
            },
            _ => PlayerAction::Stop,
        }
    }

    /// What to do after a frame, given whether sending it said to exit: stop then, and
    /// otherwise decode or play the next one.
    pub fn sent(&mut self, exit: bool) -> (action: PlayerAction)
        requires
            old(self).valid(),
        ensures
            final(self).valid(),
            final(self).outputs == old(self).outputs,
            exit ==> action is Stop && final(self).phase is Over,
            !exit ==> match old(self).phase {
                Phase::Decoding(_) => action is Decode && final(self).phase == old(self).phase,
                Phase::Playing(before) => {
                    &&& final(self).phase matches Phase::Playing(after)
                    &&& after.frames == before.frames
                    &&& after.next == (before.next + 1) % (before.frames@.len() as int)
                    &&& action matches PlayerAction::Send(frame, duration)
                    &&& frame@ == before.frames@[before.next as int].0@
                    &&& duration == before.frames@[before.next as int].1
                },
                Phase::Over => action is Stop && final(self).phase is Over,
            },
    {
        if exit {
            self.phase = Phase::Over;
            return PlayerAction::Stop;
        }
        match &mut self.phase {
            Phase::Decoding(_) => PlayerAction::Decode,
            Phase::Playing(playback) => {
                let (frame, duration) = playback.next_frame();
                PlayerAction::Send(frame, duration)
            },
            Phase::Over => PlayerAction::Stop,
        }
    }
}

/// The frames of an animation as they are decoded: `frames[i]` packs `images[i]`
/// against what was shown before it, starting from `first`, and `closing` packs
/// `first` against what is shown at the end.
pub open spec fn recorded<C, D>(
    codec: FrameCodec<C, D>,
    first: Seq<u8>,
    images: Seq<Seq<u8>>,
    canvases: Seq<Seq<u8>>,
    frames: Seq<Seq<u8>>,
    closing: Seq<u8>,
) -> bool where C: Fn(&[u8], &[u8]) -> Vec<u8>, D: Fn(Vec<u8>, &[u8]) -> Vec<u8> {
    &&& frames.len() == images.len()
    &&& canvases.len() == images.len() + 1
    &&& canvases[0] == first
    &&& forall|i: int|
        0 <= i < images.len() ==> {
            &&& (#[trigger] images[i]).len() == first.len()
            &&& codec.packs(canvases[i], images[i], frames[i])
            &&& codec.unpacks(canvases[i], frames[i], canvases[i + 1])
        }
    &&& codec.packs(canvases.last(), first, closing)
}

/// The item that comes at turn `i` when the items are taken over and over.
pub open spec fn in_turn(items: Seq<Seq<u8>>, i: int) -> Seq<u8> {
    items[i % (items.len() as int)]
}

/// What outputs show that apply `frames` over and over.
pub open spec fn replayed<C, D>(
    codec: FrameCodec<C, D>,
    frames: Seq<Seq<u8>>,
    shown: Seq<Seq<u8>>,
) -> bool where C: Fn(&[u8], &[u8]) -> Vec<u8>, D: Fn(Vec<u8>, &[u8]) -> Vec<u8> {
    forall|i: int|
        0 <= i < shown.len() - 1 ==> codec.unpacks(
            #[trigger] shown[i],
            in_turn(frames, i),
            shown[i + 1],
        )
}

/// Playing takes the frames in turn: where the first of them comes first, and each
/// position follows from the one before it, turn `i` has the position `i` modulo
/// their number.
pub proof fn frames_come_in_turn(positions: Seq<usize>, n: nat, i: int)
    requires
        n > 0,
        0 <= i < positions.len(),
        positions[0] == 0,
        forall|k: int|
            0 <= k < positions.len() - 1 ==> positions[k + 1] == (#[trigger] positions[k] + 1) % (
            n as int),
    ensures
        positions[i] == i % (n as int),
    decreases i,
{
    if i == 0 {
        lemma_small_mod(0, n);
    } else {
        frames_come_in_turn(positions, n, i - 1);
        assert(positions[i - 1 + 1] == (positions[i - 1] + 1) % (n as int));
        lemma_add_mod_noop(i - 1, 1, n as int);
        lemma_add_mod_noop((i - 1) % (n as int), 1, n as int);
        lemma_mod_twice(i - 1, n as int);
    }
}

proof fn canvas_is_image<C, D>(
    codec: FrameCodec<C, D>,
    first: Seq<u8>,
    images: Seq<Seq<u8>>,
    canvases: Seq<Seq<u8>>,
    frames: Seq<Seq<u8>>,
    closing: Seq<u8>,
    i: int,
) where C: Fn(&[u8], &[u8]) -> Vec<u8>, D: Fn(Vec<u8>, &[u8]) -> Vec<u8>
    requires
        codec.lossless(),
        recorded(codec, first, images, canvases, frames, closing),
        0 <= i <= images.len(),
    ensures
        canvases[i] == (seq![first] + images)[i],
        canvases[i].len() == first.len(),
    decreases i,
{
    if i > 0 {
        canvas_is_image(codec, first, images, canvases, frames, closing, i - 1);
        assert(images[i - 1].len() == first.len());
        assert(canvases[i - 1 + 1] == canvases[i]);
        assert(codec.unpacks(canvases[i - 1], frames[i - 1], canvases[i]));
    }
}

proof fn shown_is_image<C, D>(
    codec: FrameCodec<C, D>,
    first: Seq<u8>,
    images: Seq<Seq<u8>>,
    canvases: Seq<Seq<u8>>,
    frames: Seq<Seq<u8>>,
    closing: Seq<u8>,
    shown: Seq<Seq<u8>>,
    i: int,
) where C: Fn(&[u8], &[u8]) -> Vec<u8>, D: Fn(Vec<u8>, &[u8]) -> Vec<u8>
    requires
        codec.lossless(),
        recorded(codec, first, images, canvases, frames, closing),
        replayed(codec, seq![closing] + frames, shown),
        shown.len() > 0,
        shown[0] == canvases.last(),
        0 <= i < shown.len() - 1,
    ensures
        shown[i + 1] == in_turn(seq![first] + images, i),
    decreases i,
{
    let n: int = images.len() as int + 1;
    let all = seq![first] + images;
    let looped = seq![closing] + frames;
    let k = i % n;
    lemma_fundamental_div_mod(i, n);
    assert(codec.unpacks(shown[i], looped[k], shown[i + 1]));
    if i == 0 {
        lemma_small_mod(0, n as nat);
        canvas_is_image(codec, first, images, canvases, frames, closing, images.len() as int);
        assert(looped[0] == closing);
    } else {
        shown_is_image(codec, first, images, canvases, frames, closing, shown, i - 1);
        assert(shown[i - 1 + 1] == shown[i]);
        if k == 0 {
            assert(i - 1 == (i / n - 1) * n + (n - 1)) by (nonlinear_arith)
                requires
                    i == n * (i / n) + 0,
            ;
            lemma_fundamental_div_mod_converse(i - 1, n, i / n - 1, n - 1);
            canvas_is_image(codec, first, images, canvases, frames, closing, n - 1);
            assert(looped[0] == closing);
            assert(shown[i] == canvases.last());
        } else {
            assert(i - 1 == n * (i / n) + (k - 1));
            assert(i - 1 == (i / n) * n + (k - 1)) by (nonlinear_arith)
                requires
                    i - 1 == n * (i / n) + (k - 1),
            ;
            lemma_fundamental_div_mod_converse(i - 1, n, i / n, k - 1);
            canvas_is_image(codec, first, images, canvases, frames, closing, k - 1);
            assert(looped[k] == frames[k - 1]);
            assert(all[k] == images[k - 1]);
            assert(images[k - 1].len() == first.len());
            assert(shown[i] == canvases[k - 1]);
        }
    }
}

/// With a lossless codec, playing the packed frames over and over shows the first
/// frame, then each of the others in turn, then the first one again, and so on.
pub proof fn playback_repeats_the_images<C, D>(
    codec: FrameCodec<C, D>,
    first: Seq<u8>,
    images: Seq<Seq<u8>>,
    canvases: Seq<Seq<u8>>,
    frames: Seq<Seq<u8>>,
    closing: Seq<u8>,
    shown: Seq<Seq<u8>>,
) where C: Fn(&[u8], &[u8]) -> Vec<u8>, D: Fn(Vec<u8>, &[u8]) -> Vec<u8>
    requires
        codec.lossless(),
        recorded(codec, first, images, canvases, frames, closing),
        replayed(codec, seq![closing] + frames, shown),
        shown.len() > 0,
        shown[0] == canvases.last(),
    ensures
        forall|i: int|
            1 <= i < shown.len() ==> #[trigger] shown[i] == in_turn(seq![first] + images, i - 1),
{
    assert forall|i: int| 1 <= i < shown.len() implies #[trigger] shown[i] == in_turn(
        seq![first] + images,
        i - 1,
    ) by {
        shown_is_image(codec, first, images, canvases, frames, closing, shown, i - 1);
    }
}

/// The milliseconds of a delay are the most that fit into it.
pub proof fn a_delay_is_rounded_down(delay: (u32, u32), ms: u64)
    requires
        delay.1 != 0,
        call_ensures(frame_duration, (delay,), ms),
    ensures
        ms * delay.1 <= delay.0,
        delay.0 < (ms + 1) * delay.1,
{
    let q = ms as int;
    let n = delay.0 as int;
    let d = delay.1 as int;
    lemma_fundamental_div_mod(n, d);
    assert(q * d <= n < (q + 1) * d) by (nonlinear_arith)
        requires
            n == d * q + n % d,
            0 <= n % d < d,
    ;
}

/// An animation waits, for thirty milliseconds at a time, exactly as long as the
/// transition before it, if there is one, still takes messages.
pub proof fn an_animation_waits_for_its_transition(gif: &Gif, delivered: bool, r: Option<u64>)
    requires
        call_ensures(Gif::wait, (gif, delivered), r),
    ensures
        r is Some <==> gif.after_transition && delivered,
        r matches Some(ms) ==> ms == 30,
{
}

/// A new animation shows its first frame, keeps it with its delay, and has no other yet.
pub proof fn an_animation_starts_with_its_first_frame(
    first_frame: Vec<u8>,
    width: u32,
    height: u32,
    delay: (u32, u32),
    r: Animation,
)
    requires
        delay.1 != 0,
        call_ensures(Animation::new, (first_frame, width, height, delay), r),
    ensures
        r.first_frame@ == first_frame@,
        r.canvas@ == first_frame@,
        r.width == width,
        r.height == height,
        r.cached_frames@.len() == 0,
        r.first_duration * delay.1 <= delay.0,
        delay.0 < (r.first_duration + 1) * delay.1,
{
    let q = r.first_duration as int;
    let n = delay.0 as int;
    let d = delay.1 as int;
    lemma_fundamental_div_mod(n, d);
    assert(q * d <= n < (q + 1) * d) by (nonlinear_arith)
        requires
            n == d * q + n % d,
            0 <= n % d < d,
    ;
}

/// Adding an image packs it against what is shown, shows what applying the frame gives,
/// and keeps the frame with its duration behind those that were kept before.
pub proof fn an_added_frame_is_packed_and_kept<C, D>(
    animation: &mut Animation,
    img: &Vec<u8>,
    duration: u64,
    codec: &FrameCodec<C, D>,
    frame: Vec<u8>,
) where C: Fn(&[u8], &[u8]) -> Vec<u8>, D: Fn(Vec<u8>, &[u8]) -> Vec<u8>
    requires
        call_ensures(Animation::add_frame::<C, D>, (animation, img, duration, codec), frame),
    ensures
        exists|a: &[u8], b: &[u8], f: Vec<u8>| #[trigger]
            call_ensures(codec.comp, (a, b), f) && a@ == old(animation).canvas@ && b@ == img@
                && f@ == frame@,
        exists|c: Vec<u8>, p: &[u8], s: Vec<u8>| #[trigger]
            call_ensures(codec.decomp, (c, p), s) && c@ == old(animation).canvas@
                && p@ == frame@ && s@ == final(animation).canvas@,
        ({
            &&& final(animation).cached_frames@.len() == old(animation).cached_frames@.len() + 1
            &&& forall|i: int|
                0 <= i < old(animation).cached_frames@.len()
                    ==> #[trigger] final(animation).cached_frames@[i]
                    == old(animation).cached_frames@[i]
            &&& final(animation).cached_frames@.last().0@ == frame@
            &&& final(animation).cached_frames@.last().1 == duration
            &&& final(animation).first_frame@ == old(animation).first_frame@
            &&& final(animation).first_duration == old(animation).first_duration
            &&& final(animation).width == old(animation).width
            &&& final(animation).height == old(animation).height
        }),
{
    let before = old(animation).cached_frames@;
    let after = final(animation).cached_frames@;
    assert forall|i: int| 0 <= i < before.len() implies #[trigger] after[i] == before[i] by {
        assert(after.drop_last()[i] == before[i]);
    }
}

/// A decoded frame is brought to the size of the animation, with the filter, then packed
/// against what is shown, and kept. It comes out with its own delay.
pub proof fn a_decoded_frame_is_packed_at_size<C, D>(
    animation: &mut Animation,
    picture: DynamicImage,
    delay: (u32, u32),
    filter: FilterType,
    codec: &FrameCodec<C, D>,
    r: (Vec<u8>, u64),
) where C: Fn(&[u8], &[u8]) -> Vec<u8>, D: Fn(Vec<u8>, &[u8]) -> Vec<u8>
    requires
        delay.1 != 0,
        call_ensures(
            Animation::next_frame::<C, D>,
            (animation, picture, delay, filter, codec),
            r,
        ),
    ensures
        r.1 == delay.0 / delay.1,
        exists|a: &[u8], b: &[u8], f: Vec<u8>| #[trigger]
            call_ensures(codec.comp, (a, b), f) && {
                &&& a@ == old(animation).canvas@
                &&& f@ == r.0@
                &&& image_size(picture) == (old(animation).width, old(animation).height)
                    ==> b@ == bgra_pixels(picture)
                &&& image_size(picture) != (old(animation).width, old(animation).height)
                    ==> exists|out: DynamicImage| #[trigger]
                    fills(picture, old(animation).width, old(animation).height, filter, out)
                        && b@ == bgra_pixels(out)
            },
        exists|c: Vec<u8>, p: &[u8], s: Vec<u8>| #[trigger]
            call_ensures(codec.decomp, (c, p), s) && c@ == old(animation).canvas@
                && p@ == r.0@ && s@ == final(animation).canvas@,
        ({
            &&& final(animation).cached_frames@.len() == old(animation).cached_frames@.len() + 1
            &&& forall|i: int|
                0 <= i < old(animation).cached_frames@.len()
                    ==> #[trigger] final(animation).cached_frames@[i]
                    == old(animation).cached_frames@[i]
            &&& final(animation).cached_frames@.last().0@ == r.0@
            &&& final(animation).cached_frames@.last().1 == r.1
            &&& final(animation).first_frame@ == old(animation).first_frame@
            &&& final(animation).first_duration == old(animation).first_duration
            &&& final(animation).width == old(animation).width
            &&& final(animation).height == old(animation).height
        }),
{
    let img = choose|img: Seq<u8>| #[trigger]
        resized(picture, old(animation).width, old(animation).height, filter, img)
            && Animation::frame_added(*old(animation), img, r.1, *codec, r.0@, *final(animation));
    packed_at_size(
        *old(animation),
        *final(animation),
        picture,
        img,
        r.1,
        filter,
        *codec,
        r.0@,
    );
}

proof fn packed_at_size<C, D>(
    before: Animation,
    after: Animation,
    picture: DynamicImage,
    img: Seq<u8>,
    duration: u64,
    filter: FilterType,
    codec: FrameCodec<C, D>,
    frame: Seq<u8>,
) where C: Fn(&[u8], &[u8]) -> Vec<u8>, D: Fn(Vec<u8>, &[u8]) -> Vec<u8>
    requires
        resized(picture, before.width, before.height, filter, img),
        Animation::frame_added(before, img, duration, codec, frame, after),
    ensures
        exists|a: &[u8], b: &[u8], f: Vec<u8>| #[trigger]
            call_ensures(codec.comp, (a, b), f) && {
                &&& a@ == before.canvas@
                &&& f@ == frame
                &&& image_size(picture) == (before.width, before.height)
                    ==> b@ == bgra_pixels(picture)
                &&& image_size(picture) != (before.width, before.height)
                    ==> exists|out: DynamicImage| #[trigger]
                    fills(picture, before.width, before.height, filter, out)
                        && b@ == bgra_pixels(out)
            },
        exists|c: Vec<u8>, p: &[u8], s: Vec<u8>| #[trigger]
            call_ensures(codec.decomp, (c, p), s) && c@ == before.canvas@ && p@ == frame
                && s@ == after.canvas@,
        ({
            &&& after.cached_frames@.len() == before.cached_frames@.len() + 1
            &&& forall|i: int|
                0 <= i < before.cached_frames@.len() ==> #[trigger] after.cached_frames@[i]
                    == before.cached_frames@[i]
            &&& after.cached_frames@.last().0@ == frame
            &&& after.cached_frames@.last().1 == duration
            &&& after.first_frame@ == before.first_frame@
            &&& after.first_duration == before.first_duration
            &&& after.width == before.width
            &&& after.height == before.height
        }),
{
    let (a, b, f) = choose|a: &[u8], b: &[u8], f: Vec<u8>|
        a@ == before.canvas@ && b@ == img && f@ == frame && #[trigger] call_ensures(
            codec.comp,
            (a, b),
            f,
        );
    assert(call_ensures(codec.comp, (a, b), f));
    assert forall|i: int| 0 <= i
        < before.cached_frames@.len() implies #[trigger] after.cached_frames@[i]
        == before.cached_frames@[i] by {
        assert(after.cached_frames@.drop_last()[i] == before.cached_frames@[i]);
    }
}

/// A closed animation is played from the way back to its first frame, which stays as long
/// as the first frame does, through the frames that were kept, in their order. An
/// animation of one frame is not played.
pub proof fn a_closed_animation_leads_back_to_its_first_frame<C, D>(
    animation: Animation,
    codec: &FrameCodec<C, D>,
    r: Option<Vec<(Vec<u8>, u64)>>,
) where C: Fn(&[u8], &[u8]) -> Vec<u8>, D: Fn(Vec<u8>, &[u8]) -> Vec<u8>
    requires
        call_ensures(Animation::finish::<C, D>, (animation, codec), r),
    ensures
        r is None <==> animation.cached_frames@.len() == 0,
        r matches Some(frames) ==> {
            &&& frames@.len() == animation.cached_frames@.len() + 1
            &&& exists|a: &[u8], b: &[u8], f: Vec<u8>| #[trigger]
                call_ensures(codec.comp, (a, b), f) && a@ == animation.canvas@
                    && b@ == animation.first_frame@ && f@ == frames@[0].0@
            &&& frames@[0].1 == animation.first_duration
            &&& forall|i: int|
                0 <= i < animation.cached_frames@.len() ==> #[trigger] frames@[i + 1]
                    == animation.cached_frames@[i]
        },
{
    if let Some(frames) = r {
        assert forall|i: int| 0 <= i < animation.cached_frames@.len() implies #[trigger] frames@[i
            + 1] == animation.cached_frames@[i] by {
            assert(frames@.skip(1)[i] == animation.cached_frames@[i]);
        }
    }
}

/// Playing starts with the first frame, gives the frame whose turn it is with its own
/// duration, and goes on with the one behind it, or with the first one after the last.
pub proof fn playing_goes_round(
    playback: &mut Playback,
    r: (Vec<u8>, u64),
    frames: Vec<(Vec<u8>, u64)>,
    new: Playback,
)
    ensures
        call_ensures(Playback::new, (frames,), new) ==> new.next == 0 && new.frames@ == frames@,
        old(playback).next < old(playback).frames@.len() && call_ensures(
            Playback::next_frame,
            (playback,),
            r,
        ) ==> {
            &&& r.0@ == old(playback).frames@[old(playback).next as int].0@
            &&& r.1 == old(playback).frames@[old(playback).next as int].1
            &&& final(playback).frames@ == old(playback).frames@
            &&& old(playback).next + 1 < old(playback).frames@.len() ==> final(playback).next
                == old(playback).next + 1
            &&& old(playback).next + 1 == old(playback).frames@.len() ==> final(playback).next == 0
        },
{
    let n = old(playback).frames@.len();
    if old(playback).next + 1 < n {
        lemma_small_mod((old(playback).next + 1) as nat, n);
    } else if n > 0 {
        lemma_mod_self_0(n as int);
    }
}

/// An animation that is shown starts by decoding, on the outputs, at the size and from
/// the first frame that it was given.
pub proof fn a_player_starts_by_decoding(gif: Gif, delay: (u32, u32), r: Player)
    requires
        delay.1 != 0,
        call_ensures(Player::new, (gif, delay), r),
    ensures
        r.outputs.deep_view() == gif.outputs.deep_view(),
        r.phase matches Phase::Decoding(animation) && {
            &&& animation.first_frame@ == gif.first_frame@
            &&& animation.canvas@ == gif.first_frame@
            &&& animation.width == gif.width
            &&& animation.height == gif.height
            &&& animation.first_duration == delay.0 / delay.1
            &&& animation.cached_frames@.len() == 0
        },
{
}

/// A frame that was decoded is sent as it was packed, after its own delay, and the
/// animation goes on decoding with the frame kept.
pub proof fn a_decoded_frame_is_sent<C, D>(
    player: &mut Player,
    picture: DynamicImage,
    delay: (u32, u32),
    filter: FilterType,
    codec: &FrameCodec<C, D>,
    action: PlayerAction,
) where C: Fn(&[u8], &[u8]) -> Vec<u8>, D: Fn(Vec<u8>, &[u8]) -> Vec<u8>
    requires
        delay.1 != 0,
        old(player).phase is Decoding,
        call_ensures(
            Player::decoded::<C, D>,
            (player, picture, delay, filter, codec),
            action,
        ) || call_ensures(
            Player::try_decoded::<C, D>,
            (player, picture, delay, filter, codec),
            Some(action),
        ),
    ensures
        final(player).outputs.deep_view() == old(player).outputs.deep_view(),
        final(player).phase is Decoding,
        action is Send,
        ({
            let before = old(player).phase->Decoding_0;
            let after = final(player).phase->Decoding_0;
            let frame = action->Send_0@;
            let duration = action->Send_1;
            &&& duration == delay.0 / delay.1
            &&& exists|a: &[u8], b: &[u8], f: Vec<u8>| #[trigger]
                call_ensures(codec.comp, (a, b), f) && {
                    &&& a@ == before.canvas@
                    &&& f@ == frame
                    &&& image_size(picture) == (before.width, before.height)
                        ==> b@ == bgra_pixels(picture)
                    &&& image_size(picture) != (before.width, before.height)
                        ==> exists|out: DynamicImage| #[trigger]
                        fills(picture, before.width, before.height, filter, out)
                            && b@ == bgra_pixels(out)
                }
            &&& exists|c: Vec<u8>, p: &[u8], s: Vec<u8>| #[trigger]
                call_ensures(codec.decomp, (c, p), s) && c@ == before.canvas@ && p@ == frame
                    && s@ == after.canvas@
            &&& after.cached_frames@.len() == before.cached_frames@.len() + 1
            &&& forall|i: int|
                0 <= i < before.cached_frames@.len() ==> #[trigger] after.cached_frames@[i]
                    == before.cached_frames@[i]
            &&& after.cached_frames@.last().0@ == frame
            &&& after.cached_frames@.last().1 == duration
            &&& after.first_frame@ == before.first_frame@
            &&& after.first_duration == before.first_duration
            &&& after.width == before.width
            &&& after.height == before.height
        }),
{
    let before = old(player).phase->Decoding_0;
    let after = final(player).phase->Decoding_0;
    let frame = action->Send_0@;
    let duration = action->Send_1;
    let img = choose|img: Seq<u8>| #[trigger]
        resized(picture, before.width, before.height, filter, img) && Animation::frame_added(
            before,
            img,
            duration,
            *codec,
            frame,
            after,
        );
    packed_at_size(before, after, picture, img, duration, filter, *codec, frame);
}

/// A frame that cannot be brought to size is not shown, and changes nothing.
pub proof fn a_frame_that_does_not_fit_changes_nothing<C, D>(
    player: &mut Player,
    picture: DynamicImage,
    delay: (u32, u32),
    filter: FilterType,
    codec: &FrameCodec<C, D>,
) where C: Fn(&[u8], &[u8]) -> Vec<u8>, D: Fn(Vec<u8>, &[u8]) -> Vec<u8>
    requires
        old(player).phase is Decoding,
        call_ensures(
            Player::try_decoded::<C, D>,
            (player, picture, delay, filter, codec),
            None,
        ),
    ensures
        *final(player) == *old(player),
        !is_showable(
            picture,
            old(player).phase->Decoding_0.width,
            old(player).phase->Decoding_0.height,
            filter,
        ),
{
}

/// Once every frame is decoded, an animation sends the way back to its first frame, and
/// plays what was kept from then on; one without another frame stops.
pub proof fn a_decoded_animation_is_played<C, D>(
    player: &mut Player,
    codec: &FrameCodec<C, D>,
    action: PlayerAction,
) where C: Fn(&[u8], &[u8]) -> Vec<u8>, D: Fn(Vec<u8>, &[u8]) -> Vec<u8>
    requires
        old(player).phase is Decoding,
        call_ensures(Player::decoded_all::<C, D>, (player, codec), action),
    ensures
        final(player).outputs.deep_view() == old(player).outputs.deep_view(),
        ({
            let animation = old(player).phase->Decoding_0;
            &&& animation.cached_frames@.len() == 0
                ==> action is Stop && final(player).phase is Over
            &&& animation.cached_frames@.len() > 0 ==> {
                &&& action matches PlayerAction::Send(frame, duration)
                &&& final(player).phase matches Phase::Playing(playback)
                &&& exists|a: &[u8], b: &[u8], f: Vec<u8>| #[trigger]
                    call_ensures(codec.comp, (a, b), f) && a@ == animation.canvas@
                        && b@ == animation.first_frame@ && f@ == frame@
                &&& duration == animation.first_duration
                &&& playback.next == 1
                &&& playback.frames@.len() == animation.cached_frames@.len() + 1
                &&& playback.frames@[0].0@ == frame@
                &&& playback.frames@[0].1 == duration
                &&& forall|i: int|
                    0 <= i < animation.cached_frames@.len() ==> #[trigger] playback.frames@[i + 1]
                        == animation.cached_frames@[i]
            }
        }),
{
    let animation = old(player).phase->Decoding_0;
    if animation.cached_frames@.len() > 0 {
        let frames = final(player).phase->Playing_0.frames@;
        assert forall|i: int| 0 <= i < animation.cached_frames@.len() implies #[trigger] frames[i
            + 1] == animation.cached_frames@[i] by {
            assert(frames.skip(1)[i] == animation.cached_frames@[i]);
        }
    }
}

/// After a frame was sent, an animation ends if sending said to exit, decodes on while it
/// is being decoded, and otherwise sends the frame whose turn it is.
pub proof fn an_animation_goes_on_until_it_is_stopped(
    player: &mut Player,
    exit: bool,
    action: PlayerAction,
)
    requires
        call_ensures(Player::sent, (player, exit), action),
        old(player).phase matches Phase::Playing(playback) ==> playback.next
            < playback.frames@.len(),
    ensures
        final(player).outputs.deep_view() == old(player).outputs.deep_view(),
        exit || old(player).phase is Over ==> action is Stop && final(player).phase is Over,
        !exit && old(player).phase is Decoding ==> action is Decode && final(player).phase
            == old(player).phase,
        !exit && old(player).phase is Playing ==> {
            let before = old(player).phase->Playing_0;
            let after = final(player).phase->Playing_0;
            &&& final(player).phase is Playing
            &&& action matches PlayerAction::Send(frame, duration)
            &&& frame@ == before.frames@[before.next as int].0@
            &&& duration == before.frames@[before.next as int].1
            &&& after.frames@ == before.frames@
            &&& before.next + 1 < before.frames@.len() ==> after.next == before.next + 1
            &&& before.next + 1 == before.frames@.len() ==> after.next == 0
        },
{
    if old(player).phase is Playing {
        let before = old(player).phase->Playing_0;
        let n = before.frames@.len();
        if before.next + 1 < n {
            lemma_small_mod((before.next + 1) as nat, n);
        } else {
            lemma_mod_self_0(n as int);
        }
    }
}

/// With functions that take all images, every animation can be decoded, closed and played,
/// whatever its frames are like.
pub proof fn any_animation_can_be_played<C, D>(
    player: &mut Player,
    picture: DynamicImage,
    delay: (u32, u32),
    filter: FilterType,
    codec: &FrameCodec<C, D>,
    exit: bool,
    gif: Gif,
) where C: Fn(&[u8], &[u8]) -> Vec<u8>, D: Fn(Vec<u8>, &[u8]) -> Vec<u8>
    requires
        delay.1 != 0,
        forall|a: &[u8], b: &[u8]| #[trigger] call_requires(codec.comp, (a, b)),
        forall|c: Vec<u8>, p: &[u8]| #[trigger] call_requires(codec.decomp, (c, p)),
    ensures
        call_requires(Player::new, (gif, delay)),
        old(player).phase is Decoding ==> {
            &&& call_requires(Player::try_decoded::<C, D>, (player, picture, delay, filter, codec))
            &&& call_requires(Player::decoded_all::<C, D>, (player, codec))
        },
        (old(player).phase matches Phase::Playing(playback) ==> playback.next
            < playback.frames@.len()) ==> call_requires(Player::sent, (player, exit)),
{
}

} // verus!
