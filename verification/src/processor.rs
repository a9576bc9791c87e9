//! Carrying out requests: which outputs they change, what those outputs show first,
//! and which animations go on in the background.
use std::path::PathBuf;

use image::imageops::FilterType;
use image::DynamicImage;
use vstd::prelude::*;

use crate::animation::Gif;
use crate::codec::FrameCodec;
use crate::copies::{copy_bytes, copy_texts};
use crate::groups::{all_known, get_outputs_groups, groups_cover, output_groups};
use crate::outputs::{
    find_background, get_real_outputs, names, real_outputs, request_reaches_named_outputs,
    Background, BackgroundView,
};
use crate::resize::{
    bgra_pixels, fills, fits, image_size, img_resize, is_showable, pixel_bytes, resized,
};
use crate::stream::{error_text, ChildStream, StreamError};
use crate::transition::{
    covers, next_image, settled, settled_in_plain_numbers, step_image, Transition,
};

verus! {

/// A path, as `std::path` holds it. It is only handed on.
#[verifier::external_type_specification]
#[verifier::external_body]
pub struct ExPathBuf(PathBuf);

/// The answer to a request: for each group of outputs the frame that it shows
/// first, or why there is none.
pub type ProcessorResult = Result<Vec<(Vec<String>, Vec<u8>)>, String>;

/// A request to show an image.
pub struct Img {
    pub path: PathBuf,
    /// The outputs to show it on, between commas; all of them if empty.
    pub outputs: String,
    pub filter: FilterType,
    /// Whether the image is to appear at once.
    pub no_transition: bool,
}

/// A request to show the frames of a program.
pub struct Stream {
    pub path: PathBuf,
    /// The outputs to show them on, between commas; all of them if empty.
    pub outputs: String,
}

/// The format of an image file, as far as it matters here.
pub enum ImageFormat {
    Gif,
    Other,
}

/// A group of outputs that a request changes.
pub struct Target {
    pub outputs: Vec<String>,
    /// The position of the background of the first output.
    pub background: usize,
    pub width: u32,
    pub height: u32,
}

/// A request that is being carried out, group by group.
pub struct Batch {
    pub targets: Vec<Target>,
    /// The first frames of the groups that were seen to, in the same order.
    pub results: Vec<(Vec<String>, Vec<u8>)>,
    /// Whether the running animations were told to leave the outputs of the next group.
    pub told: bool,
}

/// What the answer to a request for no existing output says.
pub open spec fn no_valid_outputs() -> Seq<char> {
    "None of the outputs sent are valid."@
}

/// The groups of outputs that a request changes, in the order in which it does so.
pub open spec fn request_groups(
    bgs: Seq<BackgroundView>,
    request: Seq<char>,
) -> Seq<Seq<Seq<char>>> {
    output_groups(bgs, real_outputs(names(bgs), request))
}

impl Target {
    /// This is the target that a group of outputs makes.
    pub open spec fn is_for(&self, bgs: Seq<BackgroundView>, group: Seq<Seq<char>>) -> bool {
        &&& self.outputs.deep_view() == group
        &&& names(bgs).index_of_first(group[0]) == Some(self.background as int)
        &&& self.background < bgs.len()
        &&& (self.width, self.height) == bgs[self.background as int].dimensions
    }
}

impl Batch {
    /// The groups that were seen to are the first ones.
    pub open spec fn valid(&self) -> bool {
        &&& self.results@.len() <= self.targets@.len()
        &&& self.told ==> self.unfinished()
        &&& forall|i: int|
            0 <= i < self.results@.len() ==> (#[trigger] self.results@[i]).0.deep_view()
                == self.targets@[i].outputs.deep_view()
    }

    /// Some group was not seen to yet.
    pub open spec fn unfinished(&self) -> bool {
        self.results@.len() < self.targets@.len()
    }

    /// The next group can show something else: no older animation draws to it any more.
    pub open spec fn ready(&self) -> bool {
        self.valid() && self.told
    }

    /// The group to see to next.
    pub open spec fn target(&self) -> Target {
        self.targets@[self.results@.len() as int]
    }

    /// A request that nothing was done about yet, for the given groups.
    pub open spec fn is_new(&self, bgs: Seq<BackgroundView>, groups: Seq<Seq<Seq<char>>>) -> bool {
        &&& self.valid()
        &&& self.results@.len() == 0
        &&& !self.told
        &&& self.targets@.len() == groups.len()
        &&& forall|i: int|
            0 <= i < groups.len() ==> (#[trigger] self.targets@[i]).is_for(bgs, groups[i])
    }

    /// The next group is done, and shows `frame` first.
    pub open spec fn answered(before: Self, frame: Seq<u8>, after: Self) -> bool {
        &&& after.valid()
        &&& !after.told
        &&& after.targets == before.targets
        &&& after.results@.len() == before.results@.len() + 1
        &&& after.results@.drop_last() == before.results@
        &&& after.results@.last().1@ == frame
    }

    /// The group to see to next, if there is one.
    pub fn current(&self) -> (r: Option<&Target>)
        requires
            self.valid(),
        ensures
            match r {
                Some(target) => self.unfinished() && *target == self.target(),
                None => !self.unfinished(),
            },
    {
        if self.results.len() < self.targets.len() {
            Some(&self.targets[self.results.len()])
        } else {
            None
        }
    }

    /// Enters the first frame of the next group.
    pub fn answer(&mut self, frame: Vec<u8>)
        requires
            old(self).ready(),
        ensures
            Self::answered(*old(self), frame@, *final(self)),
    {
        let outputs = copy_texts(&self.targets[self.results.len()].outputs);
        let ghost before = self.results@;
        self.results.push((outputs, frame));
        self.told = false;
        assert(self.results@.drop_last() =~= before);
    }

    /// The answer to a request whose groups were all seen to.
    pub fn finish(self) -> (r: ProcessorResult)
        requires
            self.valid(),
            !self.unfinished(),
        ensures
            match r {
                Ok(results) => {
                    &&& results == self.results
                    &&& results@.len() == self.targets@.len()
                    &&& forall|i: int|
                        0 <= i < results@.len() ==> (#[trigger] results@[i]).0.deep_view()
                            == self.targets@[i].outputs.deep_view()
                },
                Err(_) => false,
            },
    {
        Ok(self.results)
    }
}

/// Plans a request: its groups of outputs, or the answer that there are none.
fn plan(bgs: &Vec<Background>, outputs: &str) -> (r: Result<Batch, String>)
    ensures
        match r {
            Ok(batch) => {
                &&& real_outputs(names(bgs.deep_view()), outputs@).len() > 0
                &&& batch.is_new(bgs.deep_view(), request_groups(bgs.deep_view(), outputs@))
            },
            Err(message) => {
                &&& real_outputs(names(bgs.deep_view()), outputs@).len() == 0
                &&& message@ == no_valid_outputs()
            },
        },
{
    let ghost views = bgs.deep_view();
    let chosen = get_real_outputs(bgs, outputs);
    if chosen.is_empty() {
        return Err("None of the outputs sent are valid.".to_owned());
    }
    let ghost all = chosen.deep_view();
    proof {
        request_reaches_named_outputs(names(views), outputs@);
        groups_cover(views, all);
    }
    let groups = get_outputs_groups(bgs, chosen);
    let mut targets: Vec<Target> = Vec::with_capacity(groups.len());
    let mut i: usize = 0;
    while i < groups.len()
        invariant
            i <= groups.len(),
            views == bgs.deep_view(),
            groups.deep_view() == output_groups(views, all),
            all_known(views, all),
            forall|g: int|
                0 <= g < output_groups(views, all).len() ==> (#[trigger] output_groups(
                    views,
                    all,
                )[g]).len() > 0,
            forall|o: Seq<char>| #[trigger]
                all.contains(o) <==> exists|g: int|
                    0 <= g < output_groups(views, all).len() && (#[trigger] output_groups(
                        views,
                        all,
                    )[g]).contains(o),
            targets@.len() == i,
            forall|j: int|
                0 <= j < i ==> (#[trigger] targets@[j]).is_for(views, groups.deep_view()[j]),
        decreases groups.len() - i,
    {
        let ghost group = groups.deep_view()[i as int];
        proof {
            assert(group == output_groups(views, all)[i as int]);
            assert(group.len() > 0);
            assert(group.contains(group[0]));
            assert(all.contains(group[0]));
            names(views).index_of_first_ensures(group[0]);
        }
        assert(groups@[i as int].deep_view() == group);
        assert(groups@[i as int]@[0]@ == group[0]);
        let found = find_background(bgs, &groups[i][0]);
        let at: usize = found.unwrap();
        targets.push(
            Target {
                outputs: copy_texts(&groups[i]),
                background: at,
                width: bgs[at].dimensions.0,
                height: bgs[at].dimensions.1,
            },
        );
        i = i + 1;
    }
    Ok(Batch { targets, results: Vec::new(), told: false })
}

/// The animations among the answers that were reached, in order.
pub open spec fn reached<A>(answers: Seq<(A, bool)>) -> Seq<A>
    decreases answers.len(),
{
    if answers.len() == 0 {
        Seq::empty()
    } else {
        let before = reached(answers.drop_last());
        if answers.last().1 {
            before.push(answers.last().0)
        } else {
            before
        }
    }
}

/// `send` was handed an animation with the outputs that it is to leave; it gave the
/// animation back as `after`, and said whether it was reached.
pub open spec fn told<A, F>(
    send: F,
    animation: A,
    outputs: Seq<Seq<char>>,
    after: A,
    delivered: bool,
) -> bool where F: Fn(A, Vec<String>) -> (A, bool) {
    exists|o: Vec<String>|
        o.deep_view() == outputs && #[trigger] call_ensures(
            send,
            (animation, o),
            (after, delivered),
        )
}

/// `send` accepts an animation with the outputs.
pub open spec fn can_tell<A, F>(send: F, animation: A, outputs: Seq<Seq<char>>) -> bool where
    F: Fn(A, Vec<String>) -> (A, bool),
 {
    forall|o: Vec<String>|
        o.deep_view() == outputs ==> #[trigger] call_requires(send, (animation, o))
}

/// Every animation was handed to `send` with the outputs, once; those that were
/// reached are left, in order.
pub open spec fn stopped<A, F>(
    send: F,
    before: Seq<A>,
    outputs: Seq<Seq<char>>,
    after: Seq<A>,
) -> bool where F: Fn(A, Vec<String>) -> (A, bool) {
    exists|answers: Seq<(A, bool)>|
        {
            &&& answers.len() == before.len()
            &&& forall|i: int|
                0 <= i < before.len() ==> told(
                    send,
                    #[trigger] before[i],
                    outputs,
                    answers[i].0,
                    answers[i].1,
                )
            &&& after == #[trigger] reached(answers)
        }
}

/// What a group goes on with after its first frame.
pub struct Started {
    /// The rest of the transition, if its first frame was not the last one.
    pub transition: Option<Transition>,
    /// The animation, if the image is animated.
    pub gif: Option<Gif>,
}

/// The image that a group shows first: the new one if there is no transition, and
/// otherwise one step towards it.
pub open spec fn first_image(old_img: Seq<u8>, new_img: Seq<u8>, no_transition: bool) -> Seq<u8> {
    if no_transition {
        new_img
    } else {
        step_image(old_img, new_img)
    }
}

/// The animations that showing an image starts.
pub open spec fn new_animations<A>(
    no_transition: bool,
    is_gif: bool,
    transition_stop: A,
    gif_stop: A,
) -> Seq<A> {
    let first = if no_transition {
        Seq::<A>::empty()
    } else {
        seq![transition_stop]
    };
    if is_gif {
        first.push(gif_stop)
    } else {
        first
    }
}

/// The current image of the next group of a request.
pub open spec fn image_on_screen(batch: Batch, bgs: Seq<Background>) -> Seq<u8> {
    bgs[batch.target().background as int].current_img@
}

/// An image can be shown where `old_img` is shown now.
pub open spec fn can_appear<C, D>(
    codec: FrameCodec<C, D>,
    old_img: Seq<u8>,
    img: Seq<u8>,
    no_transition: bool,
) -> bool where C: Fn(&[u8], &[u8]) -> Vec<u8>, D: Fn(Vec<u8>, &[u8]) -> Vec<u8> {
    &&& !no_transition ==> covers(img, old_img)
    &&& codec.can_pack(old_img, first_image(old_img, img, no_transition))
}

/// The next group of `before` shows the image `img` from now on: its first frame is
/// entered in `after`, and `started` goes on after it.
pub open spec fn group_shown<C, D>(
    codec: FrameCodec<C, D>,
    before: Batch,
    bgs: Seq<Background>,
    img: Seq<u8>,
    no_transition: bool,
    format: Option<ImageFormat>,
    after: Batch,
    started: Started,
) -> bool where C: Fn(&[u8], &[u8]) -> Vec<u8>, D: Fn(Vec<u8>, &[u8]) -> Vec<u8> {
    let old_img = image_on_screen(before, bgs);
    &&& exists|frame: Seq<u8>| #[trigger]
        Batch::answered(before, frame, after) && codec.packs(
            old_img,
            first_image(old_img, img, no_transition),
            frame,
        )
    &&& started.transition is Some <==> !no_transition && !settled(old_img, img)
    &&& started.transition matches Some(rest) ==> {
        &&& rest.old_img@ == step_image(old_img, img)
        &&& rest.goal@ == img
        &&& rest.outputs.deep_view() == before.target().outputs.deep_view()
        &&& !rest.done
    }
    &&& started.gif is Some <==> format == Some(ImageFormat::Gif)
    &&& started.gif matches Some(gif) ==> {
        &&& gif.first_frame@ == img
        &&& gif.width == before.target().width
        &&& gif.height == before.target().height
        &&& gif.outputs.deep_view() == before.target().outputs.deep_view()
        &&& gif.after_transition == !no_transition
    }
}

/// A request turns to its next group: every animation was told to leave the outputs of
/// the group, once, and those that were reached are left, in order.
pub open spec fn turned<A, F>(
    send: F,
    before: Batch,
    animations_before: Seq<A>,
    after: Batch,
    animations_after: Seq<A>,
) -> bool where F: Fn(A, Vec<String>) -> (A, bool) {
    &&& stopped(
        send,
        animations_before,
        before.target().outputs.deep_view(),
        animations_after,
    )
    &&& after.ready()
    &&& after.targets == before.targets
    &&& after.results == before.results
}

/// The next group of `before` is done: every animation was told to leave its outputs,
/// once, and those that were reached stay, in order, before the new ones; its first
/// frame is entered in `after`.
pub open spec fn group_done<A, F>(
    send: F,
    before: Batch,
    animations_before: Seq<A>,
    after: Batch,
    animations_after: Seq<A>,
) -> bool where F: Fn(A, Vec<String>) -> (A, bool) {
    &&& before.unfinished()
    &&& exists|kept: Seq<A>| #[trigger]
        stopped(send, animations_before, before.target().outputs.deep_view(), kept)
            && kept.is_prefix_of(animations_after)
    &&& exists|frame: Seq<u8>| #[trigger] Batch::answered(before, frame, after)
}

/// A request is carried out from its plan on, one group after the other: `batches` and
/// `lists` are the request and the animations before the first group, after it, after
/// the second one, and so on.
pub open spec fn carried_out<A, F>(
    send: F,
    batches: Seq<Batch>,
    lists: Seq<Seq<A>>,
) -> bool where F: Fn(A, Vec<String>) -> (A, bool) {
    &&& batches.len() == lists.len()
    &&& batches.len() > 0
    &&& batches[0].valid()
    &&& batches[0].results@.len() == 0
    &&& forall|i: int, j: int|
        0 <= i && j == i + 1 && j < batches.len() ==> group_done(
            send,
            #[trigger] batches[i],
            lists[i],
            #[trigger] batches[j],
            lists[j],
        )
}

/// The part of the daemon that computes what outputs show.
///
/// `S` is the channel on which animations send their frames, `A` the one on which an
/// animation is told to leave outputs alone.
pub struct Processor<S, A> {
    pub frame_sender: S,
    pub on_going_animations: Vec<A>,
}

impl<S, A> Processor<S, A> {
    /// A processor without animations.
    pub fn new(frame_sender: S) -> (r: Self)
        ensures
            r.frame_sender == frame_sender,
            r.on_going_animations@ == Seq::<A>::empty(),
    {
        Processor { frame_sender, on_going_animations: Vec::new() }
    }

    /// Plans a request to show an image.
    pub fn process(&self, bgs: &Vec<Background>, request: &Img) -> (r: Result<Batch, String>)
        ensures
            match r {
                Ok(batch) => {
                    &&& real_outputs(names(bgs.deep_view()), request.outputs@).len() > 0
                    &&& batch.is_new(
                        bgs.deep_view(),
                        request_groups(bgs.deep_view(), request.outputs@),
                    )
                },
                Err(message) => {
                    &&& real_outputs(names(bgs.deep_view()), request.outputs@).len() == 0
                    &&& message@ == no_valid_outputs()
                },
            },
    {
        plan(bgs, request.outputs.as_str())
    }

    /// Plans a request to show the frames of a program.
    pub fn start_stream(&self, bgs: &Vec<Background>, request: &Stream) -> (r: Result<
        Batch,
        String,
    >)
        ensures
            match r {
                Ok(batch) => {
                    &&& real_outputs(names(bgs.deep_view()), request.outputs@).len() > 0
                    &&& batch.is_new(
                        bgs.deep_view(),
                        request_groups(bgs.deep_view(), request.outputs@),
                    )
                },
                Err(message) => {
                    &&& real_outputs(names(bgs.deep_view()), request.outputs@).len() == 0
                    &&& message@ == no_valid_outputs()
                },
            },
    {
        plan(bgs, request.outputs.as_str())
    }

    /// Tells every animation to leave the outputs `to_stop` alone, and forgets those
    /// that are not there any more to be told.
    ///
    /// `send` takes an animation and gives it back, so an animation that is kept went
    /// through `send` exactly once.
    pub fn stop_animations<F>(&mut self, to_stop: &Vec<String>, send: &F) where
        F: Fn(A, Vec<String>) -> (A, bool),

        requires
            forall|i: int|
                0 <= i < old(self).on_going_animations@.len() ==> can_tell(
                    *send,
                    #[trigger] old(self).on_going_animations@[i],
                    to_stop.deep_view(),
                ),
        ensures
            stopped(
                *send,
                old(self).on_going_animations@,
                to_stop.deep_view(),
                final(self).on_going_animations@,
            ),
            final(self).frame_sender == old(self).frame_sender,
    {
        let ghost all = self.on_going_animations@;
        let ghost mut answers: Seq<(A, bool)> = Seq::empty();
        let mut rest: Vec<A> = Vec::new();
        std::mem::swap(&mut rest, &mut self.on_going_animations);
        assert(all.skip(0) =~= all);
        while !rest.is_empty()
            invariant
                answers.len() <= all.len(),
                rest@ == all.skip(answers.len() as int),
                self.on_going_animations@ == reached(answers),
                self.frame_sender == old(self).frame_sender,
                forall|j: int|
                    0 <= j < all.len() ==> can_tell(
                        *send,
                        #[trigger] all[j],
                        to_stop.deep_view(),
                    ),
                forall|j: int|
                    0 <= j < answers.len() ==> told(
                        *send,
                        #[trigger] all[j],
                        to_stop.deep_view(),
                        answers[j].0,
                        answers[j].1,
                    ),
            decreases rest.len(),
        {
            let ghost done = answers.len() as int;
            assert(rest@[0] == all[done]);
            let animation = rest.remove(0);
            assert(rest@ =~= all.skip(done + 1));
            let (animation, delivered) = send(animation, copy_texts(to_stop));
            proof {
                assert(told(*send, all[done], to_stop.deep_view(), animation, delivered));
                assert(answers.push((animation, delivered)).drop_last() =~= answers);
                answers = answers.push((animation, delivered));
            }
            if delivered {
                self.on_going_animations.push(animation);
            }
        }
        assert(answers.len() == all.len());
    }

    /// Starts a transition: gives its first frame, and the rest if that frame does not
    /// end it. `stop` is where the transition can be stopped.
    pub fn transition<C, D>(
        &mut self,
        old_img: &Vec<u8>,
        new_img: &Vec<u8>,
        outputs: &Vec<String>,
        stop: A,
        codec: &FrameCodec<C, D>,
    ) -> (r: (Vec<u8>, Option<Transition>)) where
        C: Fn(&[u8], &[u8]) -> Vec<u8>,
        D: Fn(Vec<u8>, &[u8]) -> Vec<u8>,

        requires
            covers(new_img@, old_img@),
            codec.can_pack(old_img@, step_image(old_img@, new_img@)),
        ensures
            codec.packs(old_img@, step_image(old_img@, new_img@), r.0@),
            r.1 is Some <==> !settled(old_img@, new_img@),
            r.1 matches Some(rest) ==> {
                &&& rest.old_img@ == step_image(old_img@, new_img@)
                &&& rest.goal@ == new_img@
                &&& rest.outputs.deep_view() == outputs.deep_view()
                &&& !rest.done
            },
            final(self).on_going_animations@ == old(self).on_going_animations@.push(stop),
            final(self).frame_sender == old(self).frame_sender,
    {
        self.on_going_animations.push(stop);
        let (img, done) = next_image(old_img.as_slice(), new_img.as_slice());
        let frame = codec.mixed_comp(old_img.as_slice(), img.as_slice());
        let rest = if done {
            None
        } else {
            Some(Transition::new(img, copy_bytes(new_img), copy_texts(outputs)))
        };
        (frame, rest)
    }

    /// Starts an animation on outputs that show, or will show, its first frame.
    /// `stop` is where the animation can be stopped.
    pub fn process_gif(
        &mut self,
        first_frame: Vec<u8>,
        width: u32,
        height: u32,
        outputs: Vec<String>,
        after_transition: bool,
        stop: A,
    ) -> (r: Gif)
        ensures
            r == (Gif { first_frame, width, height, outputs, after_transition }),
            final(self).on_going_animations@ == old(self).on_going_animations@.push(stop),
            final(self).frame_sender == old(self).frame_sender,
    {
        self.on_going_animations.push(stop);
        Gif { first_frame, width, height, outputs, after_transition }
    }

    /// Shows an image on the next group of a request: enters the group's first frame,
    /// and gives what goes on after it. `img` is the image at the size of the group;
    /// `transition_stop` and `gif_stop` are where a transition and an animation can be
    /// stopped, and are kept only if there is one.
    pub fn process_group<C, D>(
        &mut self,
        batch: &mut Batch,
        bgs: &Vec<Background>,
        img: Vec<u8>,
        no_transition: bool,
        format: Option<ImageFormat>,
        transition_stop: A,
        gif_stop: A,
        codec: &FrameCodec<C, D>,
    ) -> (r: Started) where
        C: Fn(&[u8], &[u8]) -> Vec<u8>,
        D: Fn(Vec<u8>, &[u8]) -> Vec<u8>,

        requires
            old(batch).ready(),
            old(batch).target().background < bgs@.len(),
            can_appear(*codec, image_on_screen(*old(batch), bgs@), img@, no_transition),
        ensures
            group_shown(
                *codec,
                *old(batch),
                bgs@,
                img@,
                no_transition,
                format,
                *final(batch),
                r,
            ),
            r.gif matches Some(gif) ==> gif.outputs.deep_view() == final(
                batch).results@.last().0.deep_view(),
            r.transition matches Some(rest) ==> rest.outputs.deep_view() == final(
                batch).results@.last().0.deep_view(),
            final(self).on_going_animations@ == old(self).on_going_animations@ + new_animations(
                no_transition,
                format == Some(ImageFormat::Gif),
                transition_stop,
                gif_stop,
            ),
            final(self).frame_sender == old(self).frame_sender,
    {
        let at: usize = batch.results.len();
        let outputs = copy_texts(&batch.targets[at].outputs);
        let width: u32 = batch.targets[at].width;
        let height: u32 = batch.targets[at].height;
        let background: usize = batch.targets[at].background;
        let old_img: &Vec<u8> = &bgs[background].current_img;
        let ghost running = self.on_going_animations@;
        let (frame, transition) = if no_transition {
            (codec.mixed_comp(old_img.as_slice(), img.as_slice()), None)
        } else {
            self.transition(old_img, &img, &outputs, transition_stop, codec)
        };
        batch.answer(frame);
        let gif = match format {
            Some(ImageFormat::Gif) => Some(
                self.process_gif(img, width, height, outputs, !no_transition, gif_stop),
            ),
            _ => None,
        };
        assert(self.on_going_animations@ =~= running + new_animations(
            no_transition,
            format == Some(ImageFormat::Gif),
            transition_stop,
            gif_stop,
        ));
        Started { transition, gif }
    }

    /// Turns to the next group of a request, if there is one: tells every animation to
    /// leave the outputs of the group alone, and gives the width and the height of what
    /// the group is to show.
    pub fn next_group<F>(&mut self, batch: &mut Batch, send: &F) -> (r: Option<(u32, u32)>) where
        F: Fn(A, Vec<String>) -> (A, bool),

        requires
            old(batch).valid(),
            !old(batch).told,
            old(batch).unfinished() ==> forall|i: int|
                0 <= i < old(self).on_going_animations@.len() ==> can_tell(
                    *send,
                    #[trigger] old(self).on_going_animations@[i],
                    old(batch).target().outputs.deep_view(),
                ),
        ensures
            r is Some <==> old(batch).unfinished(),
            match r {
                Some(size) => {
                    &&& size == (old(batch).target().width, old(batch).target().height)
                    &&& turned(
                        *send,
                        *old(batch),
                        old(self).on_going_animations@,
                        *final(batch),
                        final(self).on_going_animations@,
                    )
                },
                None => {
                    &&& *final(batch) == *old(batch)
                    &&& final(self).on_going_animations@ == old(self).on_going_animations@
                },
            },
            final(self).frame_sender == old(self).frame_sender,
    {
        let size: (u32, u32) = match batch.current() {
            Some(target) => {
                self.stop_animations(&target.outputs, send);
                (target.width, target.height)
            },
            None => {
                return None;
            },
        };
        batch.told = true;
        Some(size)
    }

    /// Shows a decoded picture on the next group of a request, once the animations have
    /// left it: brings the picture to the size of the group, with the filter of the
    /// request, and shows it. Gives nothing, and changes nothing, where the picture
    /// cannot be brought to that size.
    pub fn show_picture<C, D>(
        &mut self,
        batch: &mut Batch,
        bgs: &Vec<Background>,
        request: &Img,
        picture: DynamicImage,
        format: Option<ImageFormat>,
        transition_stop: A,
        gif_stop: A,
        codec: &FrameCodec<C, D>,
    ) -> (r: Option<Started>) where
        C: Fn(&[u8], &[u8]) -> Vec<u8>,
        D: Fn(Vec<u8>, &[u8]) -> Vec<u8>,

        requires
            old(batch).ready(),
            old(batch).target().background < bgs@.len(),
            forall|img: Seq<u8>| #[trigger]
                resized(
                    picture,
                    old(batch).target().width,
                    old(batch).target().height,
                    request.filter,
                    img,
                ) ==> can_appear(
                    *codec,
                    image_on_screen(*old(batch), bgs@),
                    img,
                    request.no_transition,
                ),
        ensures
            r is Some <==> is_showable(
                picture,
                old(batch).target().width,
                old(batch).target().height,
                request.filter,
            ),
            match r {
                Some(started) => {
                    &&& exists|img: Seq<u8>|
                        {
                            &&& #[trigger] resized(
                                picture,
                                old(batch).target().width,
                                old(batch).target().height,
                                request.filter,
                                img,
                            )
                            &&& group_shown(
                                *codec,
                                *old(batch),
                                bgs@,
                                img,
                                request.no_transition,
                                format,
                                *final(batch),
                                started,
                            )
                        }
                    &&& final(self).on_going_animations@ == old(self).on_going_animations@
                        + new_animations(
                        request.no_transition,
                        format == Some(ImageFormat::Gif),
                        transition_stop,
                        gif_stop,
                    )
                },
                None => {
                    &&& *final(batch) == *old(batch)
                    &&& final(self).on_going_animations@ == old(self).on_going_animations@
                },
            },
            final(self).frame_sender == old(self).frame_sender,
    {
        let at: usize = batch.results.len();
        let width: u32 = batch.targets[at].width;
        let height: u32 = batch.targets[at].height;
        if !fits(&picture, width, height, request.filter) {
            return None;
        }
        let img = img_resize(picture, width, height, request.filter);
        Some(
            self.process_group(
                batch,
                bgs,
                img,
                request.no_transition,
                format,
                transition_stop,
                gif_stop,
                codec,
            ),
        )
    }

    /// Shows a stream on the next group of a request, given the first frame that the
    /// program wrote: enters it as the group's first frame, and gives the stream that
    /// goes on after it. `stop` is where the stream can be stopped.
    pub fn stream_group(&mut self, batch: &mut Batch, first: Vec<u8>, stop: A) -> (r: ChildStream)
        requires
            old(batch).ready(),
            first@.len() == pixel_bytes(old(batch).target().width, old(batch).target().height),
        ensures
            Batch::answered(*old(batch), first@, *final(batch)),
            r.outputs.deep_view() == old(batch).target().outputs.deep_view(),
            r.frame@ == first@,
            r.frame@.len() == pixel_bytes(
                old(batch).target().width,
                old(batch).target().height,
            ),
            final(self).on_going_animations@ == old(self).on_going_animations@.push(stop),
            final(self).frame_sender == old(self).frame_sender,
    {
        let outputs = copy_texts(&batch.targets[batch.results.len()].outputs);
        batch.answer(copy_bytes(&first));
        self.on_going_animations.push(stop);
        ChildStream { outputs, frame: first }
    }

    /// Goes on with the next group of a request for a stream, given the first frame of
    /// the program or why there is none. Either the stream is shown, or the request ends
    /// with the answer that is given: nothing is registered then, and what was done for
    /// other groups stays.
    pub fn stream_started(
        &mut self,
        batch: &mut Batch,
        first: Result<Vec<u8>, StreamError>,
        stop: A,
    ) -> (r: Result<ChildStream, ProcessorResult>)
        requires
            old(batch).ready(),
            first matches Ok(bytes) ==> bytes@.len() == pixel_bytes(
                old(batch).target().width,
                old(batch).target().height,
            ),
        ensures
            match first {
                Ok(bytes) => {
                    &&& r matches Ok(stream)
                    &&& stream.outputs.deep_view() == old(batch).target().outputs.deep_view()
                    &&& stream.frame@ == bytes@
                    &&& Batch::answered(*old(batch), bytes@, *final(batch))
                    &&& final(self).on_going_animations@
                        == old(self).on_going_animations@.push(stop)
                },
                Err(error) => {
                    &&& r matches Err(answer)
                    &&& answer matches Err(message)
                    &&& message@ == error_text(error)
                    &&& *final(batch) == *old(batch)
                    &&& final(self).on_going_animations@ == old(self).on_going_animations@
                },
            },
            final(self).frame_sender == old(self).frame_sender,
    {
        match first {
            Ok(bytes) => Ok(self.stream_group(batch, bytes, stop)),
            Err(error) => Err(Err(error.message())),
        }
    }
}

/// Stopping keeps every animation that was reached, in order, and no other.
pub proof fn stopping_keeps_the_reached<A>(answers: Seq<(A, bool)>)
    ensures
        forall|i: int|
            0 <= i < answers.len() && (#[trigger] answers[i]).1 ==> reached(answers).contains(
                answers[i].0,
            ),
        forall|a: A| #[trigger]
            reached(answers).contains(a) ==> answers.contains((a, true)),
        (forall|i: int| 0 <= i < answers.len() ==> (#[trigger] answers[i]).1) ==> reached(answers)
            == answers.map_values(|answer: (A, bool)| answer.0),
    decreases answers.len(),
{
    if answers.len() > 0 {
        let front = answers.drop_last();
        stopping_keeps_the_reached(front);
        let before = reached(front);
        let all = reached(answers);
        assert forall|i: int| 0 <= i < answers.len() && (
        #[trigger] answers[i]).1 implies all.contains(answers[i].0) by {
            if i < front.len() {
                assert(front[i].1);
                assert(before.contains(front[i].0));
                let k = choose|k: int| 0 <= k < before.len() && before[k] == front[i].0;
                assert(all[k] == answers[i].0);
            } else {
                assert(all[all.len() - 1] == answers[i].0);
            }
        }
        assert forall|a: A| #[trigger] all.contains(a) implies answers.contains((a, true)) by {
            let k = choose|k: int| 0 <= k < all.len() && all[k] == a;
            if k < before.len() {
                assert(before[k] == a);
                assert(before.contains(a));
                let i = choose|i: int| 0 <= i < front.len() && front[i] == (a, true);
                assert(answers[i] == (a, true));
            } else {
                assert(answers[answers.len() - 1] == (a, true));
            }
        }
        if forall|i: int| 0 <= i < answers.len() ==> (#[trigger] answers[i]).1 {
            assert forall|i: int| 0 <= i < front.len() implies (#[trigger] front[i]).1 by {
                assert(answers[i].1);
            }
            assert(answers[answers.len() - 1].1);
            assert(all =~= answers.map_values(|answer: (A, bool)| answer.0));
        }
    } else {
        assert(reached(answers) =~= answers.map_values(|answer: (A, bool)| answer.0));
    }
}

/// Turning to a group and then showing a picture or a stream on it, which adds the
/// animations `added`, does the group.
pub proof fn turning_and_showing_does_a_group<A, F>(
    send: F,
    before: Batch,
    animations: Seq<A>,
    between: Batch,
    kept: Seq<A>,
    frame: Seq<u8>,
    added: Seq<A>,
    after: Batch,
) where F: Fn(A, Vec<String>) -> (A, bool)
    requires
        turned(send, before, animations, between, kept),
        Batch::answered(between, frame, after),
    ensures
        group_done(send, before, animations, after, kept + added),
{
    assert(kept.is_prefix_of(kept + added));
    assert(Batch::answered(before, frame, after));
}

/// What a request has been answered with so far stays.
proof fn answers_stay<A, F>(send: F, batches: Seq<Batch>, lists: Seq<Seq<A>>, i: int, j: int) where
    F: Fn(A, Vec<String>) -> (A, bool),

    requires
        carried_out(send, batches, lists),
        0 <= i <= j < batches.len(),
    ensures
        batches[j].valid(),
        batches[j].targets == batches[0].targets,
        batches[j].results@.len() == j,
        batches[i].results@.is_prefix_of(batches[j].results@),
    decreases j,
{
    if j > 0 {
        answers_stay(send, batches, lists, if i < j { i } else { 0 }, j - 1);
        let before = batches[j - 1];
        let after = batches[j];
        assert(group_done(send, before, lists[j - 1], after, lists[j]));
        assert(before.results@ == after.results@.drop_last());
    }
}

/// While a request is carried out, an animation that can always be reached stays, and is
/// told of exactly the groups of outputs that the request is answered for, each once
/// and in their order.
///
/// `alive` marks the animations that `send` reaches and gives back alive. What becomes
/// of the animation `s` is given back: each step is one message.
pub proof fn older_animations_hear_every_group<A, F>(
    send: F,
    batches: Seq<Batch>,
    lists: Seq<Seq<A>>,
    alive: spec_fn(A) -> bool,
    s: A,
) -> (heard: Seq<A>) where F: Fn(A, Vec<String>) -> (A, bool)
    requires
        carried_out(send, batches, lists),
        forall|a: A, o: Vec<String>, after: A, delivered: bool|
            alive(a) && #[trigger] call_ensures(send, (a, o), (after, delivered)) ==> delivered
                && alive(after),
        lists[0].contains(s),
        alive(s),
    ensures
        batches.last().results@.len() + 1 == lists.len(),
        heard.len() == lists.len(),
        heard[0] == s,
        forall|i: int|
            0 <= i < batches.last().results@.len() ==> told(
                send,
                heard[i],
                (#[trigger] batches.last().results@[i]).0.deep_view(),
                heard[i + 1],
                true,
            ),
        forall|i: int| 0 <= i < lists.len() ==> (#[trigger] lists[i]).contains(heard[i]),
        alive(heard.last()),
    decreases batches.len(),
{
    let n = batches.len() - 1;
    answers_stay(send, batches, lists, n, n);
    if n == 0 {
        seq![s]
    } else {
        let batches_before = batches.drop_last();
        let lists_before = lists.drop_last();
        let before = older_animations_hear_every_group(
            send,
            batches_before,
            lists_before,
            alive,
            s,
        );
        let last = batches[n - 1];
        let list = lists[n - 1];
        let animation = before[n - 1];
        assert(lists_before[n - 1] == list);
        answers_stay(send, batches, lists, n - 1, n);
        assert(list.contains(animation));
        assert(group_done(send, last, list, batches[n], lists[n]));
        let outputs = last.target().outputs.deep_view();
        assert(batches[n].results@[n - 1].0.deep_view() == outputs);
        let kept = choose|kept: Seq<A>| #[trigger]
            stopped(send, list, outputs, kept) && kept.is_prefix_of(lists[n]);
        let answers = choose|answers: Seq<(A, bool)>|
            {
                &&& answers.len() == list.len()
                &&& forall|i: int|
                    0 <= i < list.len() ==> told(
                        send,
                        #[trigger] list[i],
                        outputs,
                        answers[i].0,
                        answers[i].1,
                    )
                &&& kept == #[trigger] reached(answers)
            };
        let j = choose|j: int| 0 <= j < list.len() && list[j] == animation;
        assert(told(send, list[j], outputs, answers[j].0, answers[j].1));
        stopping_keeps_the_reached(answers);
        assert(answers[j].1);
        let k = choose|k: int| 0 <= k < kept.len() && kept[k] == answers[j].0;
        assert(lists[n][k] == answers[j].0);
        let heard = before.push(answers[j].0);
        assert forall|i: int| 0 <= i < batches.last().results@.len() implies told(
            send,
            heard[i],
            (#[trigger] batches.last().results@[i]).0.deep_view(),
            heard[i + 1],
            true,
        ) by {
            if i < n - 1 {
                assert(last.results@[i] == batches[n].results@[i]);
                assert(batches_before.last() == last);
            }
        }
        assert forall|i: int| 0 <= i < lists.len() implies (#[trigger] lists[i]).contains(
            heard[i],
        ) by {
            if i < n {
                assert(lists_before[i] == lists[i]);
            }
        }
        heard
    }
}

/// A request that is answered has one answer for every output that it reaches.
pub proof fn every_output_is_answered_once(
    bgs: Seq<BackgroundView>,
    request: Seq<char>,
    batch: Batch,
    start: Batch,
)
    requires
        start.is_new(bgs, request_groups(bgs, request)),
        batch.targets == start.targets,
        batch.valid(),
        !batch.unfinished(),
    ensures
        forall|o: Seq<char>| #[trigger]
            real_outputs(names(bgs), request).contains(o) <==> exists|i: int|
                0 <= i < batch.results@.len() && (
                #[trigger] batch.results@[i]).0.deep_view().contains(o),
        forall|i: int, j: int, o: Seq<char>|
            0 <= i < batch.results@.len() && 0 <= j < batch.results@.len()
                && #[trigger] batch.results@[i].0.deep_view().contains(o)
                && #[trigger] batch.results@[j].0.deep_view().contains(o) ==> i == j,
{
    let groups = request_groups(bgs, request);
    let wanted = real_outputs(names(bgs), request);
    let results = batch.results@;
    groups_cover(bgs, wanted);
    assert forall|i: int| 0 <= i < results.len() implies (
    #[trigger] results[i]).0.deep_view() == groups[i] by {
        assert(start.targets@[i].is_for(bgs, groups[i]));
    }
    assert forall|o: Seq<char>| #[trigger] wanted.contains(o) <==> exists|i: int|
        0 <= i < results.len() && (#[trigger] results[i]).0.deep_view().contains(o) by {
        if wanted.contains(o) {
            let g = choose|g: int| 0 <= g < groups.len() && (#[trigger] groups[g]).contains(o);
            assert(results[g].0.deep_view().contains(o));
        }
        if exists|i: int|
            0 <= i < results.len() && (#[trigger] results[i]).0.deep_view().contains(o) {
            let i = choose|i: int|
                0 <= i < results.len() && (#[trigger] results[i]).0.deep_view().contains(o);
            assert(groups[i].contains(o));
        }
    }
    assert forall|i: int, j: int, o: Seq<char>|
        0 <= i < results.len() && 0 <= j < results.len()
            && #[trigger] results[i].0.deep_view().contains(o)
            && #[trigger] results[j].0.deep_view().contains(o) implies i == j by {
        assert(groups[i].contains(o) && groups[j].contains(o));
    }
}

proof fn target_in_plain_terms(bgs: &Vec<Background>, group: Seq<Seq<char>>, target: Target)
    requires
        target.is_for(bgs.deep_view(), group),
        group.len() > 0,
    ensures
        target.outputs.deep_view() == group,
        target.outputs@.len() > 0,
        target.background < bgs@.len(),
        bgs@[target.background as int].output_name@ == target.outputs@[0]@,
        forall|j: int|
            0 <= j < target.background ==> (#[trigger] bgs@[j]).output_name@
                != target.outputs@[0]@,
        target.width == bgs@[target.background as int].dimensions.0,
        target.height == bgs@[target.background as int].dimensions.1,
{
    let all = names(bgs.deep_view());
    assert(target.outputs.deep_view().len() == target.outputs@.len());
    assert(target.outputs.deep_view()[0] == target.outputs@[0]@);
    all.index_of_first_ensures(group[0]);
    let at = target.background as int;
    assert(all[at] == bgs@[at].output_name@);
    assert(bgs.deep_view()[at].dimensions == bgs@[at].dimensions);
    assert forall|j: int| 0 <= j < at implies (
    #[trigger] bgs@[j]).output_name@ != target.outputs@[0]@ by {
        assert(all[j] == bgs@[j].output_name@);
        assert(all[j] != group[0]);
    }
}

/// A request for an image is refused exactly if it means no output, and otherwise has one
/// target for each group of the outputs that it means, in their order. A target has the
/// outputs of the group, and the width and the height of the first background that its
/// first output has; nothing is shown yet.
pub proof fn an_image_is_planned_for_the_groups_of_the_request<S, A>(
    processor: &Processor<S, A>,
    bgs: &Vec<Background>,
    request: &Img,
    r: Result<Batch, String>,
    text: &str,
    meant: Vec<String>,
    groups: Vec<Vec<String>>,
)
    requires
        call_ensures(Processor::<S, A>::process, (processor, bgs, request), r),
        text@ == request.outputs@,
        call_ensures(get_real_outputs, (bgs, text), meant),
        call_ensures(get_outputs_groups, (bgs, meant), groups),
    ensures
        r is Err <==> meant@.len() == 0,
        r matches Err(message) ==> message@ == "None of the outputs sent are valid."@,
        r matches Ok(batch) ==> {
            &&& batch.results@.len() == 0
            &&& !batch.told
            &&& batch.targets@.len() == groups@.len()
            &&& forall|i: int|
                0 <= i < groups@.len() ==> {
                    let target = #[trigger] batch.targets@[i];
                    &&& target.outputs.deep_view() == groups@[i].deep_view()
                    &&& target.outputs@.len() > 0
                    &&& target.background < bgs@.len()
                    &&& bgs@[target.background as int].output_name@ == target.outputs@[0]@
                    &&& forall|j: int|
                        0 <= j < target.background ==> (#[trigger] bgs@[j]).output_name@
                            != target.outputs@[0]@
                    &&& target.width == bgs@[target.background as int].dimensions.0
                    &&& target.height == bgs@[target.background as int].dimensions.1
                }
        },
{
    let views = bgs.deep_view();
    assert(meant.deep_view().len() == meant@.len());
    if let Ok(batch) = r {
        let all = request_groups(views, request.outputs@);
        groups_cover(views, meant.deep_view());
        assert(groups.deep_view().len() == groups@.len());
        assert forall|i: int| 0 <= i < groups@.len() implies {
            let target = #[trigger] batch.targets@[i];
            &&& target.outputs.deep_view() == groups@[i].deep_view()
            &&& target.outputs@.len() > 0
            &&& target.background < bgs@.len()
            &&& bgs@[target.background as int].output_name@ == target.outputs@[0]@
            &&& forall|j: int|
                0 <= j < target.background ==> (#[trigger] bgs@[j]).output_name@
                    != target.outputs@[0]@
            &&& target.width == bgs@[target.background as int].dimensions.0
            &&& target.height == bgs@[target.background as int].dimensions.1
        } by {
            target_in_plain_terms(bgs, all[i], batch.targets@[i]);
            assert(groups.deep_view()[i] == groups@[i].deep_view());
        }
    }
}

/// A request for a stream is planned as one for an image is: it is refused exactly if it
/// means no output, and otherwise has one target for each group, at the width and the
/// height of the first background that the first output of the group has.
pub proof fn a_stream_is_planned_for_the_groups_of_the_request<S, A>(
    processor: &Processor<S, A>,
    bgs: &Vec<Background>,
    request: &Stream,
    r: Result<Batch, String>,
    text: &str,
    meant: Vec<String>,
    groups: Vec<Vec<String>>,
)
    requires
        call_ensures(Processor::<S, A>::start_stream, (processor, bgs, request), r),
        text@ == request.outputs@,
        call_ensures(get_real_outputs, (bgs, text), meant),
        call_ensures(get_outputs_groups, (bgs, meant), groups),
    ensures
        r is Err <==> meant@.len() == 0,
        r matches Err(message) ==> message@ == "None of the outputs sent are valid."@,
        r matches Ok(batch) ==> {
            &&& batch.results@.len() == 0
            &&& !batch.told
            &&& batch.targets@.len() == groups@.len()
            &&& forall|i: int|
                0 <= i < groups@.len() ==> {
                    let target = #[trigger] batch.targets@[i];
                    &&& target.outputs.deep_view() == groups@[i].deep_view()
                    &&& target.outputs@.len() > 0
                    &&& target.background < bgs@.len()
                    &&& bgs@[target.background as int].output_name@ == target.outputs@[0]@
                    &&& forall|j: int|
                        0 <= j < target.background ==> (#[trigger] bgs@[j]).output_name@
                            != target.outputs@[0]@
                    &&& target.width == bgs@[target.background as int].dimensions.0
                    &&& target.height == bgs@[target.background as int].dimensions.1
                }
        },
{
    let views = bgs.deep_view();
    assert(meant.deep_view().len() == meant@.len());
    if let Ok(batch) = r {
        let all = request_groups(views, request.outputs@);
        groups_cover(views, meant.deep_view());
        assert(groups.deep_view().len() == groups@.len());
        assert forall|i: int| 0 <= i < groups@.len() implies {
            let target = #[trigger] batch.targets@[i];
            &&& target.outputs.deep_view() == groups@[i].deep_view()
            &&& target.outputs@.len() > 0
            &&& target.background < bgs@.len()
            &&& bgs@[target.background as int].output_name@ == target.outputs@[0]@
            &&& forall|j: int|
                0 <= j < target.background ==> (#[trigger] bgs@[j]).output_name@
                    != target.outputs@[0]@
            &&& target.width == bgs@[target.background as int].dimensions.0
            &&& target.height == bgs@[target.background as int].dimensions.1
        } by {
            target_in_plain_terms(bgs, all[i], batch.targets@[i]);
            assert(groups.deep_view()[i] == groups@[i].deep_view());
        }
    }
}

/// The group to see to next is the first one without an answer. Its answer goes behind
/// the others, with the outputs of the group and the frame as it is given. The answer to
/// a request is those of its groups.
pub proof fn groups_are_answered_one_by_one(
    batch: &mut Batch,
    frame: Vec<u8>,
    seen: &Batch,
    next: Option<&Target>,
    done: Batch,
    answer: ProcessorResult,
)
    requires
        call_ensures(Batch::answer, (batch, frame), ()),
        call_ensures(Batch::current, (seen,), next),
        call_ensures(Batch::finish, (done,), answer),
        old(batch).results@.len() < old(batch).targets@.len(),
    ensures
        final(batch).targets@ == old(batch).targets@,
        !final(batch).told,
        final(batch).results@.len() == old(batch).results@.len() + 1,
        forall|i: int|
            0 <= i < old(batch).results@.len() ==> #[trigger] final(batch).results@[i] == old(
                batch).results@[i],
        final(batch).results@.last().0.deep_view() == old(batch).targets@[old(
            batch).results@.len() as int].outputs.deep_view(),
        final(batch).results@.last().1@ == frame@,
        next is Some <==> seen.results@.len() < seen.targets@.len(),
        next matches Some(target) ==> *target == seen.targets@[seen.results@.len() as int],
        answer matches Ok(results) && results@ == done.results@,
{
    let before = old(batch).results@;
    let after = final(batch).results@;
    assert forall|i: int| 0 <= i < before.len() implies #[trigger] after[i] == before[i] by {
        assert(after.drop_last()[i] == before[i]);
    }
    assert(after[after.len() - 1] == after.last());
}

/// Where the reached ones stand among the answers.
proof fn reached_positions<A>(answers: Seq<(A, bool)>) -> (at: Seq<int>)
    ensures
        at.len() == reached(answers).len(),
        forall|k: int| 0 <= k < at.len() ==> 0 <= #[trigger] at[k] < answers.len(),
        forall|k: int| 0 <= k < at.len() ==> reached(answers)[k] == answers[#[trigger] at[k]].0,
        forall|k: int, l: int| 0 <= k < l < at.len() ==> #[trigger] at[k] < #[trigger] at[l],
        forall|i: int|
            0 <= i < answers.len() ==> (at.contains(i) <==> (#[trigger] answers[i]).1),
    decreases answers.len(),
{
    if answers.len() == 0 {
        Seq::empty()
    } else {
        let front = answers.drop_last();
        let before = reached_positions(front);
        let last = answers.len() - 1;
        let at = if answers.last().1 {
            before.push(last)
        } else {
            before
        };
        assert forall|i: int| 0 <= i < answers.len() implies (at.contains(i) <==> (
        #[trigger] answers[i]).1) by {
            if i < last {
                assert(front[i] == answers[i]);
                if before.contains(i) {
                    let k = choose|k: int| 0 <= k < before.len() && before[k] == i;
                    assert(at[k] == i);
                }
                if at.contains(i) {
                    let k = choose|k: int| 0 <= k < at.len() && at[k] == i;
                    assert(before[k] == i);
                }
            } else {
                if answers.last().1 {
                    assert(at[at.len() - 1] == i);
                } else if before.contains(i) {
                    let k = choose|k: int| 0 <= k < before.len() && before[k] == i;
                    assert(before[k] < front.len());
                }
            }
        }
        at
    }
}

/// Every animation is handed to `send` with exactly the outputs to leave, and what comes
/// back of it is kept, in the order of the animations, exactly if `send` says that it was
/// reached: `answers` are what `send` said, and `at` is where those stood that are kept.
pub proof fn stopping_tells_everybody_and_keeps_who_answers<S, A, F>(
    processor: &mut Processor<S, A>,
    to_stop: &Vec<String>,
    send: &F,
) where F: Fn(A, Vec<String>) -> (A, bool)
    requires
        call_ensures(
            Processor::<S, A>::stop_animations::<F>,
            (processor, to_stop, send),
            (),
        ),
    ensures
        ({
            &&& exists|answers: Seq<(A, bool)>, notes: Seq<Vec<String>>, at: Seq<int>|
                {
                    &&& #[trigger] answers.len() == old(processor).on_going_animations@.len()
                    &&& #[trigger] notes.len() == old(processor).on_going_animations@.len()
                    &&& forall|i: int|
                        0 <= i < notes.len() ==> (#[trigger] notes[i]).deep_view()
                            == to_stop.deep_view()
                    &&& forall|i: int|
                        0 <= i < notes.len() ==> call_ensures(
                            *send,
                            (old(processor).on_going_animations@[i], #[trigger] notes[i]),
                            answers[i],
                        )
                    &&& #[trigger] at.len() == final(processor).on_going_animations@.len()
                    &&& forall|k: int| 0 <= k < at.len() ==> 0 <= #[trigger] at[k] < answers.len()
                    &&& forall|k: int|
                        0 <= k < at.len() ==> final(processor).on_going_animations@[k]
                            == answers[#[trigger] at[k]].0
                    &&& forall|k: int, l: int|
                        0 <= k < l < at.len() ==> #[trigger] at[k] < #[trigger] at[l]
                    &&& forall|i: int|
                        0 <= i < answers.len() ==> (at.contains(i) <==> (#[trigger] answers[i]).1)
                }
        }),
        final(processor).frame_sender == old(processor).frame_sender,
{
    stopped_in_plain_terms(
        send,
        old(processor).on_going_animations@,
        to_stop.deep_view(),
        final(processor).on_going_animations@,
    );
}

proof fn stopped_in_plain_terms<A, F>(
    send: &F,
    before: Seq<A>,
    outputs: Seq<Seq<char>>,
    after: Seq<A>,
) where F: Fn(A, Vec<String>) -> (A, bool)
    requires
        stopped(*send, before, outputs, after),
    ensures
        ({
            &&& exists|answers: Seq<(A, bool)>, notes: Seq<Vec<String>>, at: Seq<int>|
                {
                    &&& #[trigger] answers.len() == before.len()
                    &&& #[trigger] notes.len() == before.len()
                    &&& forall|i: int|
                        0 <= i < notes.len() ==> (#[trigger] notes[i]).deep_view() == outputs
                    &&& forall|i: int|
                        0 <= i < notes.len() ==> call_ensures(
                            *send,
                            (before[i], #[trigger] notes[i]),
                            answers[i],
                        )
                    &&& #[trigger] at.len() == after.len()
                    &&& forall|k: int| 0 <= k < at.len() ==> 0 <= #[trigger] at[k] < answers.len()
                    &&& forall|k: int|
                        0 <= k < at.len() ==> after[k] == answers[#[trigger] at[k]].0
                    &&& forall|k: int, l: int|
                        0 <= k < l < at.len() ==> #[trigger] at[k] < #[trigger] at[l]
                    &&& forall|i: int|
                        0 <= i < answers.len() ==> (at.contains(i) <==> (#[trigger] answers[i]).1)
                }
        }),
{
    let answers = choose|answers: Seq<(A, bool)>|
        {
            &&& answers.len() == before.len()
            &&& forall|i: int|
                0 <= i < before.len() ==> told(
                    *send,
                    #[trigger] before[i],
                    outputs,
                    answers[i].0,
                    answers[i].1,
                )
            &&& after == #[trigger] reached(answers)
        };
    let notes = Seq::new(
        before.len(),
        |i: int|
            choose|o: Vec<String>|
                o.deep_view() == outputs && #[trigger] call_ensures(
                    *send,
                    (before[i], o),
                    (answers[i].0, answers[i].1),
                ),
    );
    assert forall|i: int| 0 <= i < notes.len() implies (
    #[trigger] notes[i]).deep_view() == outputs && call_ensures(
        *send,
        (before[i], notes[i]),
        answers[i],
    ) by {
        assert(told(*send, before[i], outputs, answers[i].0, answers[i].1));
        assert(answers[i] == (answers[i].0, answers[i].1));
    }
    let at = reached_positions(answers);
    assert(at.len() == after.len() && answers.len() == before.len() && notes.len()
        == before.len());
}

/// Turning to a group tells every animation of exactly the outputs of the first group
/// without an answer, and gives that group's width and height, in this order. It leaves
/// the answers as they are, and once there is no such group it does nothing.
pub proof fn turning_to_a_group_stops_its_outputs<S, A, F>(
    processor: &mut Processor<S, A>,
    batch: &mut Batch,
    send: &F,
    r: Option<(u32, u32)>,
) where F: Fn(A, Vec<String>) -> (A, bool)
    requires
        call_ensures(Processor::<S, A>::next_group::<F>, (processor, batch, send), r),
    ensures
        r is Some <==> old(batch).results@.len() < old(batch).targets@.len(),
        final(batch).targets@ == old(batch).targets@,
        final(batch).results@ == old(batch).results@,
        final(processor).frame_sender == old(processor).frame_sender,
        r is None ==> final(batch).told == old(batch).told && final(processor).on_going_animations@
            == old(processor).on_going_animations@,
        r matches Some(size) ==> {
            let target = old(batch).targets@[old(batch).results@.len() as int];
            &&& size.0 == target.width
            &&& size.1 == target.height
            &&& final(batch).told
            &&& exists|answers: Seq<(A, bool)>, notes: Seq<Vec<String>>, at: Seq<int>|
                {
                    &&& #[trigger] answers.len() == old(processor).on_going_animations@.len()
                    &&& #[trigger] notes.len() == old(processor).on_going_animations@.len()
                    &&& forall|i: int|
                        0 <= i < notes.len() ==> (#[trigger] notes[i]).deep_view()
                            == target.outputs.deep_view()
                    &&& forall|i: int|
                        0 <= i < notes.len() ==> call_ensures(
                            *send,
                            (old(processor).on_going_animations@[i], #[trigger] notes[i]),
                            answers[i],
                        )
                    &&& #[trigger] at.len() == final(processor).on_going_animations@.len()
                    &&& forall|k: int| 0 <= k < at.len() ==> 0 <= #[trigger] at[k] < answers.len()
                    &&& forall|k: int|
                        0 <= k < at.len() ==> final(processor).on_going_animations@[k]
                            == answers[#[trigger] at[k]].0
                    &&& forall|k: int, l: int|
                        0 <= k < l < at.len() ==> #[trigger] at[k] < #[trigger] at[l]
                    &&& forall|i: int|
                        0 <= i < answers.len() ==> (at.contains(i) <==> (#[trigger] answers[i]).1)
                }
        },
{
    if r is Some {
        stopped_in_plain_terms(
            send,
            old(processor).on_going_animations@,
            old(batch).target().outputs.deep_view(),
            final(processor).on_going_animations@,
        );
    }
}

/// A transition starts with a frame that packs, against the image on screen, one whose
/// colours are by at most 20 nearer to the new one. It goes on from that image, to the new
/// one and on the same outputs, unless every colour was less than 20 away.
pub proof fn a_transition_starts_with_one_step<S, A, C, D>(
    processor: &mut Processor<S, A>,
    old_img: &Vec<u8>,
    new_img: &Vec<u8>,
    outputs: &Vec<String>,
    stop: A,
    codec: &FrameCodec<C, D>,
    r: (Vec<u8>, Option<Transition>),
) where C: Fn(&[u8], &[u8]) -> Vec<u8>, D: Fn(Vec<u8>, &[u8]) -> Vec<u8>
    requires
        call_ensures(
            Processor::<S, A>::transition::<C, D>,
            (processor, old_img, new_img, outputs, stop, codec),
            r,
        ),
    ensures
        exists|a: &[u8], b: &[u8], f: Vec<u8>| #[trigger]
            call_ensures(codec.comp, (a, b), f) && {
                &&& a@ == old_img@
                &&& f@ == r.0@
                &&& b@.len() == old_img@.len() - old_img@.len() % 4
                &&& forall|k: int| 0 <= k < b@.len() && k % 4 == 3
                    ==> #[trigger] b@[k] == old_img@[k]
                &&& forall|k: int|
                    0 <= k < b@.len() && k % 4 != 3
                        ==> #[trigger] b@[k] == (if old_img@[k] - 20 > new_img@[k] {
                        old_img@[k] - 20
                    } else if old_img@[k] + 20 < new_img@[k] {
                        old_img@[k] + 20
                    } else {
                        new_img@[k] as int
                    })
            },
        r.1 is None <==> (forall|k: int|
            0 <= k < old_img@.len() - old_img@.len() % 4 && k % 4 != 3
                ==> -20 < #[trigger] old_img@[k]
                - new_img@[k] < 20),
        r.1 matches Some(rest) ==> {
            &&& rest.old_img@.len() == old_img@.len() - old_img@.len() % 4
            &&& forall|k: int| 0 <= k < rest.old_img@.len() && k % 4 == 3
                ==> #[trigger] rest.old_img@[k] == old_img@[k]
            &&& forall|k: int|
                0 <= k < rest.old_img@.len() && k % 4 != 3
                    ==> #[trigger] rest.old_img@[k] == (if old_img@[k] - 20 > new_img@[k] {
                    old_img@[k] - 20
                } else if old_img@[k] + 20 < new_img@[k] {
                    old_img@[k] + 20
                } else {
                    new_img@[k] as int
                })
            &&& rest.goal@ == new_img@
            &&& rest.outputs.deep_view() == outputs.deep_view()
            &&& !rest.done
        },
        final(processor).on_going_animations@ == old(processor).on_going_animations@.push(stop),
        final(processor).frame_sender == old(processor).frame_sender,
{
    packed_in_plain_terms(*codec, old_img@, step_image(old_img@, new_img@), r.0@);
    settled_in_plain_numbers(old_img@, new_img@);
}

proof fn packed_in_plain_terms<C, D>(
    codec: FrameCodec<C, D>,
    before: Seq<u8>,
    img: Seq<u8>,
    frame: Seq<u8>,
) where C: Fn(&[u8], &[u8]) -> Vec<u8>, D: Fn(Vec<u8>, &[u8]) -> Vec<u8>
    requires
        codec.packs(before, img, frame),
    ensures
        exists|a: &[u8], b: &[u8], f: Vec<u8>| #[trigger]
            call_ensures(codec.comp, (a, b), f) && a@ == before && b@ == img && f@ == frame,
{
}

/// An animation is started as it is given, and can be stopped where it is said.
pub proof fn an_animation_is_started_as_it_is_given<S, A>(
    processor: &mut Processor<S, A>,
    first_frame: Vec<u8>,
    width: u32,
    height: u32,
    outputs: Vec<String>,
    after_transition: bool,
    stop: A,
    r: Gif,
)
    requires
        call_ensures(
            Processor::<S, A>::process_gif,
            (processor, first_frame, width, height, outputs, after_transition, stop),
            r,
        ),
    ensures
        r.first_frame@ == first_frame@,
        r.width == width,
        r.height == height,
        r.outputs.deep_view() == outputs.deep_view(),
        r.after_transition == after_transition,
        final(processor).on_going_animations@ == old(processor).on_going_animations@.push(stop),
        final(processor).frame_sender == old(processor).frame_sender,
{
}

proof fn shown_in_plain_terms<C, D>(
    codec: FrameCodec<C, D>,
    before: Batch,
    bgs: Seq<Background>,
    img: Seq<u8>,
    no_transition: bool,
    format: Option<ImageFormat>,
    after: Batch,
    started: Started,
) where C: Fn(&[u8], &[u8]) -> Vec<u8>, D: Fn(Vec<u8>, &[u8]) -> Vec<u8>
    requires
        before.results@.len() < before.targets@.len(),
        group_shown(codec, before, bgs, img, no_transition, format, after, started),
    ensures
        ({
            let target = before.targets@[before.results@.len() as int];
            let old_img = bgs[target.background as int].current_img@;
            &&& after.targets@ == before.targets@
            &&& !after.told
            &&& after.results@.len() == before.results@.len() + 1
            &&& forall|i: int|
                0 <= i < before.results@.len() ==> #[trigger] after.results@[i]
                    == before.results@[i]
            &&& after.results@.last().0.deep_view() == target.outputs.deep_view()
            &&& no_transition ==> exists|a: &[u8], b: &[u8], f: Vec<u8>| #[trigger]
                call_ensures(codec.comp, (a, b), f) && a@ == old_img && b@ == img && f@
                    == after.results@.last().1@
            &&& !no_transition ==> exists|a: &[u8], b: &[u8], f: Vec<u8>| #[trigger]
                call_ensures(codec.comp, (a, b), f) && {
                    &&& a@ == old_img
                    &&& f@ == after.results@.last().1@
                    &&& b@.len() == old_img.len() - old_img.len() % 4
                    &&& forall|k: int| 0 <= k < b@.len() && k % 4 == 3
                        ==> #[trigger] b@[k] == old_img[k]
                    &&& forall|k: int|
                        0 <= k < b@.len() && k % 4 != 3
                            ==> #[trigger] b@[k] == (if old_img[k] - 20 > img[k] {
                            old_img[k] - 20
                        } else if old_img[k] + 20 < img[k] {
                            old_img[k] + 20
                        } else {
                            img[k] as int
                        })
                }
            &&& started.transition is None <==> no_transition || (forall|k: int|
                0 <= k < old_img.len() - old_img.len() % 4 && k % 4 != 3
                    ==> -20 < #[trigger] old_img[k]
                    - img[k] < 20)
            &&& started.transition matches Some(rest) ==> {
                &&& rest.old_img@.len() == old_img.len() - old_img.len() % 4
                &&& forall|k: int| 0 <= k < rest.old_img@.len() && k % 4 == 3
                    ==> #[trigger] rest.old_img@[k] == old_img[k]
                &&& forall|k: int|
                    0 <= k < rest.old_img@.len() && k % 4 != 3
                        ==> #[trigger] rest.old_img@[k] == (if old_img[k] - 20 > img[k] {
                        old_img[k] - 20
                    } else if old_img[k] + 20 < img[k] {
                        old_img[k] + 20
                    } else {
                        img[k] as int
                    })
                &&& rest.goal@ == img
                &&& rest.outputs.deep_view() == after.results@.last().0.deep_view()
                &&& !rest.done
            }
            &&& started.gif is Some <==> format == Some(ImageFormat::Gif)
            &&& started.gif matches Some(gif) ==> {
                &&& gif.first_frame@ == img
                &&& gif.width == target.width
                &&& gif.height == target.height
                &&& gif.outputs.deep_view() == after.results@.last().0.deep_view()
                &&& gif.after_transition == !no_transition
            }
        }),
{
    let target = before.targets@[before.results@.len() as int];
    let old_img = bgs[target.background as int].current_img@;
    let frame = choose|frame: Seq<u8>| #[trigger]
        Batch::answered(before, frame, after) && codec.packs(
            old_img,
            first_image(old_img, img, no_transition),
            frame,
        );
    packed_in_plain_terms(codec, old_img, first_image(old_img, img, no_transition), frame);
    settled_in_plain_numbers(old_img, img);
    assert forall|i: int| 0 <= i < before.results@.len() implies #[trigger] after.results@[i]
        == before.results@[i] by {
        assert(after.results@.drop_last()[i] == before.results@[i]);
    }
    assert(after.results@[after.results@.len() - 1] == after.results@.last());
}

/// Showing an image on a group answers it with its outputs and a frame, packed against the
/// image on screen: the image itself, or one step of a transition to it. What goes on
/// after it, a transition or an animation, goes on on all the outputs of that answer, and
/// can be stopped; an animation starts from the image, at the size of the group.
pub proof fn an_image_is_shown_on_the_whole_group<S, A, C, D>(
    processor: &mut Processor<S, A>,
    batch: &mut Batch,
    bgs: &Vec<Background>,
    img: Vec<u8>,
    no_transition: bool,
    format: Option<ImageFormat>,
    transition_stop: A,
    gif_stop: A,
    codec: &FrameCodec<C, D>,
    r: Started,
) where C: Fn(&[u8], &[u8]) -> Vec<u8>, D: Fn(Vec<u8>, &[u8]) -> Vec<u8>
    requires
        old(batch).results@.len() < old(batch).targets@.len(),
        call_ensures(
            Processor::<S, A>::process_group::<C, D>,
            (
                processor,
                batch,
                bgs,
                img,
                no_transition,
                format,
                transition_stop,
                gif_stop,
                codec,
            ),
            r,
        ),
    ensures
        ({
            let target = old(batch).targets@[old(batch).results@.len() as int];
            let old_img = bgs@[target.background as int].current_img@;
            &&& final(batch).targets@ == old(batch).targets@
            &&& !final(batch).told
            &&& final(batch).results@.len() == old(batch).results@.len() + 1
            &&& forall|i: int|
                0 <= i < old(batch).results@.len() ==> #[trigger] final(batch).results@[i]
                    == old(batch).results@[i]
            &&& final(batch).results@.last().0.deep_view() == target.outputs.deep_view()
            &&& no_transition ==> exists|a: &[u8], b: &[u8], f: Vec<u8>| #[trigger]
                call_ensures(codec.comp, (a, b), f) && a@ == old_img && b@ == img@ && f@
                    == final(batch).results@.last().1@
            &&& !no_transition ==> exists|a: &[u8], b: &[u8], f: Vec<u8>| #[trigger]
                call_ensures(codec.comp, (a, b), f) && {
                    &&& a@ == old_img
                    &&& f@ == final(batch).results@.last().1@
                    &&& b@.len() == old_img.len() - old_img.len() % 4
                    &&& forall|k: int| 0 <= k < b@.len() && k % 4 == 3
                        ==> #[trigger] b@[k] == old_img[k]
                    &&& forall|k: int|
                        0 <= k < b@.len() && k % 4 != 3
                            ==> #[trigger] b@[k] == (if old_img[k] - 20 > img@[k] {
                            old_img[k] - 20
                        } else if old_img[k] + 20 < img@[k] {
                            old_img[k] + 20
                        } else {
                            img@[k] as int
                        })
                }
            &&& r.transition is None <==> no_transition || (forall|k: int|
                0 <= k < old_img.len() - old_img.len() % 4 && k % 4 != 3
                    ==> -20 < #[trigger] old_img[k]
                    - img@[k] < 20)
            &&& r.transition matches Some(rest) ==> {
                &&& rest.old_img@.len() == old_img.len() - old_img.len() % 4
                &&& forall|k: int| 0 <= k < rest.old_img@.len() && k % 4 == 3
                    ==> #[trigger] rest.old_img@[k] == old_img[k]
                &&& forall|k: int|
                    0 <= k < rest.old_img@.len() && k % 4 != 3
                        ==> #[trigger] rest.old_img@[k] == (if old_img[k] - 20 > img@[k] {
                        old_img[k] - 20
                    } else if old_img[k] + 20 < img@[k] {
                        old_img[k] + 20
                    } else {
                        img@[k] as int
                    })
                &&& rest.goal@ == img@
                &&& rest.outputs.deep_view() == final(batch).results@.last().0.deep_view()
                &&& !rest.done
            }
            &&& r.gif is Some <==> format == Some(ImageFormat::Gif)
            &&& r.gif matches Some(gif) ==> {
                &&& gif.first_frame@ == img@
                &&& gif.width == target.width
                &&& gif.height == target.height
                &&& gif.outputs.deep_view() == final(batch).results@.last().0.deep_view()
                &&& gif.after_transition == !no_transition
            }
        }),
        final(processor).on_going_animations@.len()
            == old(processor).on_going_animations@.len() + (if no_transition {
            0int
        } else {
            1
        }) + (if format == Some(ImageFormat::Gif) {
            1int
        } else {
            0
        }),
        forall|i: int| 0 <= i < old(processor).on_going_animations@.len()
            ==> #[trigger] final(processor).on_going_animations@[i]
            == old(processor).on_going_animations@[i],
        !no_transition
            ==> final(processor).on_going_animations@[
                old(processor).on_going_animations@.len() as int
            ] == transition_stop,
        format == Some(ImageFormat::Gif) ==> final(processor).on_going_animations@.last()
            == gif_stop,
        final(processor).frame_sender == old(processor).frame_sender,
{
    shown_in_plain_terms(
        *codec,
        *old(batch),
        bgs@,
        img@,
        no_transition,
        format,
        *final(batch),
        r,
    );
}

/// Showing a picture on a group shows what the picture looks like at the width and the
/// height of the group, with the filter of the request: its own pixels if it has that size,
/// and otherwise those of a picture that fills it. What is shown goes on on all the outputs
/// that the group is answered for. A picture that cannot be brought to that size changes
/// nothing.
pub proof fn a_picture_is_shown_on_the_whole_group<S, A, C, D>(
    processor: &mut Processor<S, A>,
    batch: &mut Batch,
    bgs: &Vec<Background>,
    request: &Img,
    picture: DynamicImage,
    format: Option<ImageFormat>,
    transition_stop: A,
    gif_stop: A,
    codec: &FrameCodec<C, D>,
    r: Option<Started>,
) where C: Fn(&[u8], &[u8]) -> Vec<u8>, D: Fn(Vec<u8>, &[u8]) -> Vec<u8>
    requires
        old(batch).results@.len() < old(batch).targets@.len(),
        call_ensures(
            Processor::<S, A>::show_picture::<C, D>,
            (
                processor,
                batch,
                bgs,
                request,
                picture,
                format,
                transition_stop,
                gif_stop,
                codec,
            ),
            r,
        ),
    ensures
        r is None ==> *final(batch) == *old(batch) && final(processor).on_going_animations@ == old(
            processor).on_going_animations@,
        r matches Some(started) ==> exists|img: Seq<u8>|
            {
                let target = old(batch).targets@[old(batch).results@.len() as int];
                let old_img = bgs@[target.background as int].current_img@;
                &&& #[trigger] img.len() >= 0
                &&& image_size(picture) == (target.width, target.height)
                    ==> img == bgra_pixels(picture)
                &&& image_size(picture) != (target.width, target.height)
                    ==> exists|out: DynamicImage| #[trigger]
                    fills(picture, target.width, target.height, request.filter, out) && img
                        == bgra_pixels(out)
                &&& final(batch).targets@ == old(batch).targets@
                &&& !final(batch).told
                &&& final(batch).results@.len() == old(batch).results@.len() + 1
                &&& forall|i: int|
                    0 <= i < old(batch).results@.len()
                        ==> #[trigger] final(batch).results@[i] == old(batch).results@[i]
                &&& final(batch).results@.last().0.deep_view() == target.outputs.deep_view()
                &&& request.no_transition ==> exists|a: &[u8], b: &[u8], f: Vec<u8>| #[trigger]
                    call_ensures(codec.comp, (a, b), f) && a@ == old_img && b@ == img && f@
                        == final(batch).results@.last().1@
                &&& !request.no_transition ==> exists|a: &[u8], b: &[u8], f: Vec<u8>| #[trigger]
                    call_ensures(codec.comp, (a, b), f) && {
                        &&& a@ == old_img
                        &&& f@ == final(batch).results@.last().1@
                        &&& b@.len() == old_img.len() - old_img.len() % 4
                        &&& forall|k: int| 0 <= k < b@.len() && k % 4 == 3
                            ==> #[trigger] b@[k] == old_img[k]
                        &&& forall|k: int|
                            0 <= k < b@.len() && k % 4 != 3
                                ==> #[trigger] b@[k] == (if old_img[k] - 20 > img[k] {
                                old_img[k] - 20
                            } else if old_img[k] + 20 < img[k] {
                                old_img[k] + 20
                            } else {
                                img[k] as int
                            })
                    }
                &&& started.transition is None <==> request.no_transition || (forall|k: int|
                    0 <= k < old_img.len() - old_img.len() % 4 && k % 4 != 3
                        ==> -20 < #[trigger] old_img[k]
                        - img[k] < 20)
                &&& started.transition matches Some(rest) ==> {
                    &&& rest.old_img@.len() == old_img.len() - old_img.len() % 4
                    &&& forall|k: int| 0 <= k < rest.old_img@.len() && k % 4 == 3
                        ==> #[trigger] rest.old_img@[k] == old_img[k]
                    &&& forall|k: int|
                        0 <= k < rest.old_img@.len() && k % 4 != 3
                            ==> #[trigger] rest.old_img@[k] == (if old_img[k] - 20 > img[k] {
                            old_img[k] - 20
                        } else if old_img[k] + 20 < img[k] {
                            old_img[k] + 20
                        } else {
                            img[k] as int
                        })
                    &&& rest.goal@ == img
                    &&& rest.outputs.deep_view() == final(batch).results@.last().0.deep_view()
                    &&& !rest.done
                }
                &&& started.gif is Some <==> format == Some(ImageFormat::Gif)
                &&& started.gif matches Some(gif) ==> {
                    &&& gif.first_frame@ == img
                    &&& gif.width == target.width
                    &&& gif.height == target.height
                    &&& gif.outputs.deep_view() == final(batch).results@.last().0.deep_view()
                    &&& gif.after_transition == !request.no_transition
                }
            },
        r is Some ==> {
            &&& final(processor).on_going_animations@.len()
                == old(processor).on_going_animations@.len() + (if request.no_transition {
                0int
            } else {
                1
            }) + (if format == Some(ImageFormat::Gif) {
                1int
            } else {
                0
            })
            &&& forall|i: int| 0 <= i < old(processor).on_going_animations@.len()
                ==> #[trigger] final(processor).on_going_animations@[i]
                == old(processor).on_going_animations@[i]
            &&& !request.no_transition
                ==> final(processor).on_going_animations@[
                    old(processor).on_going_animations@.len() as int
                ] == transition_stop
            &&& format == Some(ImageFormat::Gif)
                ==> final(processor).on_going_animations@.last() == gif_stop
        },
        final(processor).frame_sender == old(processor).frame_sender,
{
    let target = old(batch).targets@[old(batch).results@.len() as int];
    if let Some(started) = r {
        let img = choose|img: Seq<u8>|
            {
                &&& #[trigger] resized(picture, target.width, target.height, request.filter, img)
                &&& group_shown(
                    *codec,
                    *old(batch),
                    bgs@,
                    img,
                    request.no_transition,
                    format,
                    *final(batch),
                    started,
                )
            };
        shown_in_plain_terms(
            *codec,
            *old(batch),
            bgs@,
            img,
            request.no_transition,
            format,
            *final(batch),
            started,
        );
        assert(img.len() >= 0);
    }
}

/// A stream is shown on all the outputs that its group is answered for, with the frame
/// that the program wrote first as it is, and can be stopped where it is said. If there is
/// no such frame, the request ends with what failed, and nothing else changes.
pub proof fn a_stream_is_shown_on_the_whole_group<S, A>(
    processor: &mut Processor<S, A>,
    batch: &mut Batch,
    first: Result<Vec<u8>, StreamError>,
    stop: A,
    r: Result<ChildStream, ProcessorResult>,
)
    requires
        old(batch).results@.len() < old(batch).targets@.len(),
        call_ensures(
            Processor::<S, A>::stream_started,
            (processor, batch, first, stop),
            r,
        ) || (first is Ok && r is Ok && call_ensures(
            Processor::<S, A>::stream_group,
            (processor, batch, first->Ok_0, stop),
            r->Ok_0,
        )),
    ensures
        r is Ok <==> first is Ok,
        final(batch).targets@ == old(batch).targets@,
        first matches Ok(bytes) ==> {
            let stream = r->Ok_0;
            let target = old(batch).targets@[old(batch).results@.len() as int];
            &&& !final(batch).told
            &&& final(batch).results@.len() == old(batch).results@.len() + 1
            &&& forall|i: int|
                0 <= i < old(batch).results@.len() ==> #[trigger] final(batch).results@[i] == old(
                    batch).results@[i]
            &&& final(batch).results@.last().0.deep_view() == target.outputs.deep_view()
            &&& final(batch).results@.last().1@ == bytes@
            &&& stream.outputs.deep_view() == target.outputs.deep_view()
            &&& stream.frame@ == bytes@
            &&& final(processor).on_going_animations@ == old(
                processor).on_going_animations@.push(stop)
        },
        first matches Err(error) ==> {
            let answer = r->Err_0;
            &&& *final(batch) == *old(batch)
            &&& final(processor).on_going_animations@ == old(processor).on_going_animations@
            &&& answer is Err
            &&& answer->Err_0@ == match error {
                StreamError::Spawn(cause) => "Failed to spawn child process: "@ + cause@,
                StreamError::NoStdout => "Couldn't capture child process stdout."@,
                StreamError::Read(cause) => "Failed to read child stdout: "@ + cause@,
            }
        },
        final(processor).frame_sender == old(processor).frame_sender,
{
    let before = old(batch).results@;
    let after = final(batch).results@;
    if first is Ok {
        assert forall|i: int| 0 <= i < before.len() implies #[trigger] after[i] == before[i] by {
            assert(after.drop_last()[i] == before[i]);
        }
        assert(after[after.len() - 1] == after.last());
    }
}

/// A new processor has its channel and no animations.
pub proof fn a_new_processor_is_idle<S, A>(frame_sender: S, r: Processor<S, A>)
    requires
        call_ensures(Processor::<S, A>::new, (frame_sender,), r),
    ensures
        r.frame_sender == frame_sender,
        r.on_going_animations@.len() == 0,
{
}

/// A request whose answers so far are those of its first groups can be carried on: turned
/// to its next group, if that was not done yet, and answered, once it was.
pub proof fn any_request_can_be_carried_on<S, A, F>(
    processor: &mut Processor<S, A>,
    batch: &mut Batch,
    send: &F,
    frame: Vec<u8>,
    first: Result<Vec<u8>, StreamError>,
    stop: A,
) where F: Fn(A, Vec<String>) -> (A, bool)
    requires
        forall|a: A, o: Vec<String>| #[trigger] call_requires(*send, (a, o)),
        old(batch).results@.len() <= old(batch).targets@.len(),
        old(batch).told ==> old(batch).results@.len() < old(batch).targets@.len(),
        forall|i: int|
            0 <= i < old(batch).results@.len() ==> (#[trigger] old(batch).results@[i]).0.deep_view()
                == old(batch).targets@[i].outputs.deep_view(),
    ensures
        !old(batch).told ==> call_requires(
            Processor::<S, A>::next_group::<F>,
            (processor, batch, send),
        ),
        old(batch).told ==> call_requires(Batch::answer, (batch, frame)),
        old(batch).told && (first matches Ok(bytes) ==> bytes@.len() == 4 * (old(
            batch).targets@[old(batch).results@.len() as int].width * old(batch).targets@[old(
            batch).results@.len() as int].height)) ==> call_requires(
            Processor::<S, A>::stream_started,
            (processor, batch, first, stop),
        ),
        old(batch).results@.len() == old(batch).targets@.len() ==> call_requires(
            Batch::finish,
            (*old(batch),),
        ),
{
}

/// With functions that take all images, any picture can be shown on a group that was
/// turned to, at once, or with a transition if the image on screen is not larger than the
/// group.
pub proof fn any_picture_can_be_shown<S, A, C, D>(
    processor: &mut Processor<S, A>,
    batch: &mut Batch,
    bgs: &Vec<Background>,
    request: &Img,
    picture: DynamicImage,
    format: Option<ImageFormat>,
    transition_stop: A,
    gif_stop: A,
    codec: &FrameCodec<C, D>,
) where C: Fn(&[u8], &[u8]) -> Vec<u8>, D: Fn(Vec<u8>, &[u8]) -> Vec<u8>
    requires
        forall|a: &[u8], b: &[u8]| #[trigger] call_requires(codec.comp, (a, b)),
        old(batch).told,
        old(batch).results@.len() < old(batch).targets@.len(),
        forall|i: int|
            0 <= i < old(batch).results@.len() ==> (#[trigger] old(batch).results@[i]).0.deep_view()
                == old(batch).targets@[i].outputs.deep_view(),
        old(batch).targets@[old(batch).results@.len() as int].background < bgs@.len(),
        request.no_transition || ({
            let target = old(batch).targets@[old(batch).results@.len() as int];
            bgs@[target.background as int].current_img@.len() <= 4 * (target.width * target.height)
        }),
    ensures
        call_requires(
            Processor::<S, A>::show_picture::<C, D>,
            (
                processor,
                batch,
                bgs,
                request,
                picture,
                format,
                transition_stop,
                gif_stop,
                codec,
            ),
        ),
{
}

/// Every request can be planned, and every animation be told.
pub proof fn any_request_can_be_planned<S, A, F>(
    processor: &mut Processor<S, A>,
    bgs: &Vec<Background>,
    img: &Img,
    stream: &Stream,
    to_stop: &Vec<String>,
    send: &F,
) where F: Fn(A, Vec<String>) -> (A, bool)
    requires
        forall|a: A, o: Vec<String>| #[trigger] call_requires(*send, (a, o)),
    ensures
        call_requires(Processor::<S, A>::process, (&*old(processor), bgs, img)),
        call_requires(Processor::<S, A>::start_stream, (&*old(processor), bgs, stream)),
        call_requires(
            Processor::<S, A>::stop_animations::<F>,
            (processor, to_stop, send),
        ),
{
}

} // verus!
