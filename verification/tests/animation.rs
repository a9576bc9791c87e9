use image::imageops::FilterType;
use image::{DynamicImage, ImageBuffer, Rgba};
use wallpaper_processor::animation::{
    frame_duration, Animation, Gif, Phase, Playback, Player, PlayerAction, WAIT_MS,
};
use wallpaper_processor::codec::FrameCodec;

fn xor(a: &[u8], b: &[u8]) -> Vec<u8> {
    a.iter().zip(b).map(|(x, y)| x ^ y).collect()
}

fn unxor(canvas: Vec<u8>, packed: &[u8]) -> Vec<u8> {
    xor(&canvas, packed)
}

fn gif() -> Gif {
    Gif {
        first_frame: vec![1, 2, 3, 4],
        width: 1,
        height: 1,
        outputs: vec!["a".to_string()],
        after_transition: true,
    }
}

#[test]
fn delays_are_rounded_down() {
    assert_eq!(frame_duration((100, 1)), 100);
    assert_eq!(frame_duration((199, 100)), 1);
    assert_eq!(frame_duration((0, 7)), 0);
    assert_eq!(frame_duration((u32::MAX, 1)), 4294967295);
    assert_eq!(WAIT_MS, 30);
}

#[test]
fn frames_are_packed_and_kept() {
    let codec = FrameCodec { comp: xor, decomp: unxor };
    let mut animation = Animation::new(vec![1, 2, 3, 4], 1, 1, (70, 2));
    assert_eq!(animation.first_duration, 35);
    assert_eq!(animation.canvas, vec![1, 2, 3, 4]);
    let frame = animation.add_frame(&vec![1, 0, 0, 0], 50, &codec);
    assert_eq!(frame, vec![0, 2, 3, 4]);
    assert_eq!(animation.canvas, vec![1, 0, 0, 0]);
    assert_eq!(animation.cached_frames, vec![(vec![0, 2, 3, 4], 50)]);
    let frames = animation.finish(&codec).unwrap();
    assert_eq!(frames, vec![(vec![0, 2, 3, 4], 35), (vec![0, 2, 3, 4], 50)]);
}

#[test]
fn decoded_frames_are_brought_to_size() {
    let codec = FrameCodec { comp: xor, decomp: unxor };
    let mut animation = Animation::new(vec![1, 2, 3, 4], 1, 1, (10, 1));
    let buffer: ImageBuffer<Rgba<u8>, Vec<u8>> =
        ImageBuffer::from_raw(1, 1, vec![9, 8, 7, 6]).unwrap();
    let (frame, duration) = animation.next_frame(
        DynamicImage::ImageRgba8(buffer),
        (40, 1),
        FilterType::Nearest,
        &codec,
    );
    assert_eq!(duration, 40);
    assert_eq!(frame, vec![1 ^ 7, 2 ^ 8, 3 ^ 9, 4 ^ 6]);
    assert_eq!(animation.canvas, vec![7, 8, 9, 6]);
    let buffer: ImageBuffer<Rgba<u8>, Vec<u8>> =
        ImageBuffer::from_raw(2, 1, vec![9, 8, 7, 6, 9, 8, 7, 6]).unwrap();
    let (frame, _) = animation.next_frame(
        DynamicImage::ImageRgba8(buffer),
        (40, 1),
        FilterType::Nearest,
        &codec,
    );
    assert_eq!(frame, vec![0, 0, 0, 0]);
}

#[test]
fn a_single_frame_is_no_animation() {
    let codec = FrameCodec { comp: xor, decomp: unxor };
    assert!(Animation::new(vec![1, 2, 3, 4], 1, 1, (10, 1)).finish(&codec).is_none());
}

#[test]
fn playback_starts_over_after_the_last_frame() {
    let mut playback = Playback::new(vec![(vec![1], 10), (vec![2], 20), (vec![3], 30)]);
    let mut played = Vec::new();
    for _ in 0..7 {
        played.push(playback.next_frame());
    }
    assert_eq!(
        played,
        vec![
            (vec![1], 10),
            (vec![2], 20),
            (vec![3], 30),
            (vec![1], 10),
            (vec![2], 20),
            (vec![3], 30),
            (vec![1], 10),
        ]
    );
    assert_eq!(playback.next, 1);
}

#[test]
fn playback_shows_the_images_again_and_again() {
    let codec = FrameCodec { comp: xor, decomp: unxor };
    let images = [vec![5, 5, 5, 5], vec![9, 0, 9, 0], vec![1, 2, 3, 0]];
    let mut animation = Animation::new(vec![1, 2, 3, 4], 1, 1, (10, 1));
    for img in &images {
        animation.add_frame(img, 1, &codec);
    }
    let mut screen = animation.canvas.clone();
    let mut playback = Playback::new(animation.finish(&codec).unwrap());
    for _ in 0..3 {
        screen = unxor(screen, &playback.next_frame().0);
        assert_eq!(screen, vec![1, 2, 3, 4]);
        for img in &images {
            screen = unxor(screen, &playback.next_frame().0);
            assert_eq!(&screen, img);
        }
    }
}

fn picture(bytes: [u8; 4]) -> DynamicImage {
    let buffer: ImageBuffer<Rgba<u8>, Vec<u8>> =
        ImageBuffer::from_raw(1, 1, bytes.to_vec()).unwrap();
    DynamicImage::ImageRgba8(buffer)
}

fn is_send(action: PlayerAction, bytes: [u8; 4], ms: u64) -> bool {
    matches!(action, PlayerAction::Send(frame, duration) if frame == bytes.to_vec() && duration == ms)
}

#[test]
fn an_animation_is_decoded_then_played() {
    let codec = FrameCodec { comp: xor, decomp: unxor };
    let mut player = Player::new(gif(), (10, 1));
    assert_eq!(player.outputs, vec!["a".to_string()]);
    let action = player.decoded(picture([3, 2, 0, 4]), (20, 1), FilterType::Nearest, &codec);
    assert!(is_send(action, [1, 0, 0, 0], 20));
    assert!(matches!(player.sent(false), PlayerAction::Decode));
    let action = player.decoded(picture([3, 2, 1, 0]), (30, 1), FilterType::Nearest, &codec);
    assert!(is_send(action, [1, 0, 0, 4], 30));
    assert!(matches!(player.sent(false), PlayerAction::Decode));
    assert!(is_send(player.decoded_all(&codec), [0, 0, 0, 4], 10));
    for _ in 0..2 {
        assert!(is_send(player.sent(false), [1, 0, 0, 0], 20));
        assert!(is_send(player.sent(false), [1, 0, 0, 4], 30));
        assert!(is_send(player.sent(false), [0, 0, 0, 4], 10));
    }
    assert!(matches!(player.sent(true), PlayerAction::Stop));
    assert!(matches!(player.phase, Phase::Over));
    assert!(matches!(player.sent(false), PlayerAction::Stop));
}

#[test]
fn an_animation_can_be_stopped_while_it_is_decoded() {
    let codec = FrameCodec { comp: xor, decomp: unxor };
    let mut player = Player::new(gif(), (10, 1));
    player.decoded(picture([3, 2, 0, 4]), (20, 1), FilterType::Nearest, &codec);
    assert!(matches!(player.sent(true), PlayerAction::Stop));
    assert!(matches!(player.phase, Phase::Over));
}

#[test]
fn a_still_image_is_not_played() {
    let codec = FrameCodec { comp: xor, decomp: unxor };
    let mut player = Player::new(gif(), (10, 1));
    assert!(matches!(player.decoded_all(&codec), PlayerAction::Stop));
    assert!(matches!(player.phase, Phase::Over));
}

#[test]
fn an_animation_waits_for_the_transition_before_it() {
    let mut gif = gif();
    assert_eq!(gif.wait(true), Some(30));
    assert_eq!(gif.wait(false), None);
    gif.after_transition = false;
    assert_eq!(gif.wait(true), None);
    assert_eq!(gif.wait(false), None);
}

#[test]
fn pictures_without_pixels_are_not_played() {
    let codec = FrameCodec { comp: xor, decomp: unxor };
    let mut player = Player::new(gif(), (10, 1));
    let empty = DynamicImage::new_rgba8(0, 1);
    assert!(player.try_decoded(empty, (20, 1), FilterType::Nearest, &codec).is_none());
    assert!(matches!(player.phase, Phase::Decoding(_)));
    let action = player.try_decoded(picture([3, 2, 0, 4]), (20, 1), FilterType::Nearest, &codec);
    assert!(is_send(action.unwrap(), [1, 0, 0, 0], 20));
}
