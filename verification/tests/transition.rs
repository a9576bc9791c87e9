use wallpaper_processor::codec::FrameCodec;
use wallpaper_processor::transition::{
    goal_covers, next_image, Transition, TransitionAction, FRAME_MS, STEP,
};

fn xor(a: &[u8], b: &[u8]) -> Vec<u8> {
    a.iter().zip(b).map(|(x, y)| x ^ y).collect()
}

fn unxor(canvas: Vec<u8>, packed: &[u8]) -> Vec<u8> {
    xor(&canvas, packed)
}

#[test]
fn colours_move_by_a_step_at_most() {
    assert_eq!(STEP, 20);
    assert_eq!(FRAME_MS, 30);
    let (img, done) = next_image(&[0, 100, 255, 7], &[255, 110, 0, 9]);
    assert_eq!(img, vec![20, 110, 235, 7]);
    assert!(!done);
}

#[test]
fn near_colours_reach_the_goal() {
    let (img, done) = next_image(&[100, 100, 100, 1], &[119, 81, 100, 2]);
    assert_eq!(img, vec![119, 81, 100, 1]);
    assert!(done);
}

#[test]
fn a_whole_step_is_not_the_last_one() {
    let (img, done) = next_image(&[100, 100, 100, 1], &[120, 100, 80, 1]);
    assert_eq!(img, vec![120, 100, 80, 1]);
    assert!(!done);
}

#[test]
fn bytes_after_the_last_whole_pixel_are_dropped() {
    let (img, done) = next_image(&[1, 2, 3, 4, 5, 6], &[1, 2, 3, 4, 200, 200]);
    assert_eq!(img, vec![1, 2, 3, 4]);
    assert!(done);
    let (img, done) = next_image(&[], &[]);
    assert!(img.is_empty() && done);
}

#[test]
fn the_goal_needs_no_last_alpha() {
    assert!(goal_covers(&[9, 9, 9], &[1, 2, 3, 4]));
    assert!(!goal_covers(&[9, 9], &[1, 2, 3, 4]));
    assert!(goal_covers(&[], &[1, 2, 3]));
    let (img, done) = next_image(&[1, 2, 3, 4], &[9, 9, 9]);
    assert_eq!(img, vec![9, 9, 9, 4]);
    assert!(done);
}

#[test]
fn frames_are_packed_against_what_is_shown() {
    let codec = FrameCodec { comp: xor, decomp: unxor };
    let mut t = Transition::new(vec![0, 0, 0, 1], vec![30, 5, 0, 1], vec!["a".to_string()]);
    assert!(!t.done);
    let frame = t.next_frame(&codec);
    assert_eq!(frame, vec![20, 5, 0, 0]);
    assert_eq!(t.old_img, vec![20, 5, 0, 1]);
    assert!(!t.done);
    let frame = t.next_frame(&codec);
    assert_eq!(frame, vec![20 ^ 30, 0, 0, 0]);
    assert_eq!(t.old_img, vec![30, 5, 0, 1]);
    assert!(t.done);
    assert_eq!(t.outputs, vec!["a".to_string()]);
    assert_eq!(t.goal, vec![30, 5, 0, 1]);
}

#[test]
fn the_widest_transition_takes_thirteen_frames() {
    let codec = FrameCodec { comp: xor, decomp: unxor };
    let mut t = Transition::new(vec![0, 255, 128, 77], vec![255, 0, 128, 3], Vec::new());
    let mut frames = 0;
    while !t.done {
        t.next_frame(&codec);
        frames += 1;
    }
    assert_eq!(frames, 13);
    assert_eq!(t.old_img, vec![255, 0, 128, 77]);
}

#[test]
fn a_shown_goal_stays() {
    let (img, done) = next_image(&[3, 4, 5, 6], &[3, 4, 5, 0]);
    assert_eq!(img, vec![3, 4, 5, 6]);
    assert!(done);
}

#[test]
fn a_transition_stops_after_its_last_frame_or_when_told_to() {
    let codec = FrameCodec { comp: xor, decomp: unxor };
    let mut t = Transition::new(vec![0, 0, 0, 1], vec![30, 5, 0, 1], Vec::new());
    let action = t.after_frame(false, &codec);
    assert!(matches!(action, TransitionAction::Send(frame) if frame == vec![20, 5, 0, 0]));
    assert!(matches!(t.after_frame(true, &codec), TransitionAction::Stop));
    assert_eq!(t.old_img, vec![20, 5, 0, 1]);
    let action = t.after_frame(false, &codec);
    assert!(matches!(action, TransitionAction::Send(frame) if frame == vec![20 ^ 30, 0, 0, 0]));
    assert!(matches!(t.after_frame(false, &codec), TransitionAction::Stop));
}

#[test]
fn the_farthest_colour_decides_how_many_frames_there_are() {
    let codec = FrameCodec { comp: xor, decomp: unxor };
    for farthest in 0..=255u8 {
        let goal = vec![farthest, 7, farthest / 2, 0, 0, 0, 0, 255];
        let mut t = Transition::new(vec![0, 7, 0, 1, 0, 0, 0, 1], goal, Vec::new());
        let mut frames = 0;
        while let TransitionAction::Send(_) = t.after_frame(false, &codec) {
            frames += 1;
        }
        assert_eq!(frames, farthest as usize / 20 + 1);
        assert_eq!(t.old_img, vec![farthest, 7, farthest / 2, 1, 0, 0, 0, 1]);
    }
}
