use image::imageops::FilterType;
use image::{DynamicImage, ImageBuffer, Rgba};
use std::cell::RefCell;
use std::path::PathBuf;
use wallpaper_processor::codec::FrameCodec;
use wallpaper_processor::dispatch::{frame_message, frame_timeout, send_frame, StopEvent};
use wallpaper_processor::outputs::Background;
use wallpaper_processor::processor::{Batch, ImageFormat, Img, Processor, Stream};
use wallpaper_processor::stream::StreamError;

fn xor(a: &[u8], b: &[u8]) -> Vec<u8> {
    a.iter().zip(b).map(|(x, y)| x ^ y).collect()
}

fn unxor(canvas: Vec<u8>, packed: &[u8]) -> Vec<u8> {
    xor(&canvas, packed)
}

fn texts(list: &[&str]) -> Vec<String> {
    list.iter().map(|s| s.to_string()).collect()
}

fn bg(name: &str, current: [u8; 4], path: &str) -> Background {
    Background {
        output_name: name.to_string(),
        dimensions: (1, 1),
        img: Some(path.as_bytes().to_vec()),
        current_img: current.to_vec(),
    }
}

fn backgrounds() -> Vec<Background> {
    vec![
        bg("a", [10, 10, 10, 1], "x"),
        bg("b", [50, 50, 50, 2], "y"),
        bg("c", [10, 10, 10, 1], "x"),
    ]
}

fn img(outputs: &str, no_transition: bool) -> Img {
    Img {
        path: PathBuf::from("image.png"),
        outputs: outputs.to_string(),
        filter: FilterType::Nearest,
        no_transition,
    }
}

fn keep(animation: u32, _: Vec<String>) -> (u32, bool) {
    (animation, true)
}

fn plan(outputs: &str) -> Batch {
    let processor: Processor<(), u32> = Processor::new(());
    processor.process(&backgrounds(), &img(outputs, false)).ok().unwrap()
}

#[test]
fn a_new_processor_has_no_animations() {
    let processor: Processor<u8, u32> = Processor::new(7);
    assert_eq!(processor.frame_sender, 7);
    assert!(processor.on_going_animations.is_empty());
}

#[test]
fn requests_for_no_output_are_refused() {
    let processor: Processor<(), u32> = Processor::new(());
    let message = "None of the outputs sent are valid.".to_string();
    assert_eq!(processor.process(&backgrounds(), &img("d,e", false)).err(), Some(message.clone()));
    assert_eq!(processor.process(&Vec::new(), &img("", false)).err(), Some(message.clone()));
    let stream = Stream { path: PathBuf::from("prog"), outputs: "d".to_string() };
    assert_eq!(processor.start_stream(&backgrounds(), &stream).err(), Some(message));
}

#[test]
fn requests_are_planned_group_by_group() {
    let batch = plan("");
    assert_eq!(batch.targets.len(), 2);
    assert_eq!(batch.targets[0].outputs, texts(&["c", "a"]));
    assert_eq!(batch.targets[0].background, 2);
    assert_eq!((batch.targets[0].width, batch.targets[0].height), (1, 1));
    assert_eq!(batch.targets[1].outputs, texts(&["b"]));
    assert_eq!(batch.targets[1].background, 1);
    assert!(batch.results.is_empty());
    assert_eq!(batch.current().unwrap().outputs, texts(&["c", "a"]));
    let processor: Processor<(), u32> = Processor::new(());
    let stream = Stream { path: PathBuf::from("prog"), outputs: "b,a".to_string() };
    let batch = processor.start_stream(&backgrounds(), &stream).ok().unwrap();
    assert_eq!(batch.targets[0].outputs, texts(&["a"]));
    assert_eq!(batch.targets[1].outputs, texts(&["b"]));
}

#[test]
fn an_image_without_transition_is_packed_at_once() {
    let codec = FrameCodec { comp: xor, decomp: unxor };
    let mut processor: Processor<(), u32> = Processor::new(());
    let mut batch = plan("b");
    assert_eq!(processor.next_group(&mut batch, &keep), Some((1, 1)));
    let started = processor.process_group(
        &mut batch,
        &backgrounds(),
        vec![0, 255, 0, 0],
        true,
        Some(ImageFormat::Other),
        1,
        2,
        &codec,
    );
    assert!(started.transition.is_none() && started.gif.is_none());
    assert!(processor.on_going_animations.is_empty());
    assert!(batch.current().is_none());
    assert_eq!(
        batch.finish(),
        Ok(vec![(texts(&["b"]), vec![50, 50 ^ 255, 50, 2])])
    );
}

#[test]
fn a_transition_goes_on_after_its_first_frame() {
    let codec = FrameCodec { comp: xor, decomp: unxor };
    let mut processor: Processor<(), u32> = Processor::new(());
    let mut batch = plan("b");
    assert_eq!(processor.next_group(&mut batch, &keep), Some((1, 1)));
    let started = processor.process_group(
        &mut batch,
        &backgrounds(),
        vec![0, 255, 50, 0],
        false,
        None,
        1,
        2,
        &codec,
    );
    let rest = started.transition.unwrap();
    assert_eq!(rest.old_img, vec![30, 70, 50, 2]);
    assert_eq!(rest.goal, vec![0, 255, 50, 0]);
    assert_eq!(rest.outputs, texts(&["b"]));
    assert!(!rest.done);
    assert!(started.gif.is_none());
    assert_eq!(processor.on_going_animations, vec![1]);
    assert_eq!(
        batch.finish(),
        Ok(vec![(texts(&["b"]), vec![50 ^ 30, 50 ^ 70, 0, 0])])
    );
}

#[test]
fn a_transition_that_ends_at_once_still_counts_as_started() {
    let codec = FrameCodec { comp: xor, decomp: unxor };
    let mut processor: Processor<(), u32> = Processor::new(());
    let (frame, rest) = processor.transition(
        &vec![1, 2, 3, 4],
        &vec![5, 2, 3, 0],
        &texts(&["a"]),
        9,
        &codec,
    );
    assert_eq!(frame, vec![1 ^ 5, 0, 0, 0]);
    assert!(rest.is_none());
    assert_eq!(processor.on_going_animations, vec![9]);
}

#[test]
fn an_animated_image_goes_on_after_its_transition() {
    let codec = FrameCodec { comp: xor, decomp: unxor };
    let mut processor: Processor<(), u32> = Processor::new(());
    let mut batch = plan("");
    for no_transition in [false, true] {
        assert_eq!(processor.next_group(&mut batch, &keep), Some((1, 1)));
        let started = processor.process_group(
            &mut batch,
            &backgrounds(),
            vec![200, 0, 0, 0],
            no_transition,
            Some(ImageFormat::Gif),
            if no_transition { 11 } else { 1 },
            if no_transition { 12 } else { 2 },
            &codec,
        );
        let gif = started.gif.unwrap();
        assert_eq!(gif.first_frame, vec![200, 0, 0, 0]);
        assert_eq!((gif.width, gif.height), (1, 1));
        assert_eq!(gif.after_transition, !no_transition);
        assert_eq!(started.transition.is_some(), !no_transition);
    }
    assert_eq!(processor.on_going_animations, vec![1, 2, 12]);
    let results = batch.finish().unwrap();
    assert_eq!(results[0].0, texts(&["c", "a"]));
    assert_eq!(results[1].0, texts(&["b"]));
    assert_eq!(results[0].1, vec![10 ^ 30, 10, 10, 0]);
    assert_eq!(results[1].1, vec![50 ^ 200, 50, 50, 2]);
}

#[test]
fn a_stream_starts_with_the_frame_that_was_read() {
    let mut processor: Processor<(), u32> = Processor::new(());
    let mut batch = plan("a");
    assert_eq!(processor.next_group(&mut batch, &keep), Some((1, 1)));
    let stream = processor.stream_group(&mut batch, vec![1, 2, 3, 4], 5);
    assert_eq!(stream.outputs, texts(&["a"]));
    assert_eq!(stream.frame, vec![1, 2, 3, 4]);
    assert_eq!(processor.on_going_animations, vec![5]);
    assert_eq!(batch.finish(), Ok(vec![(texts(&["a"]), vec![1, 2, 3, 4])]));
}

#[test]
fn stopping_tells_every_animation_and_forgets_the_gone() {
    let mut processor: Processor<(), u32> = Processor::new(());
    processor.on_going_animations = vec![1, 2, 3, 4, 5];
    let log = RefCell::new(Vec::new());
    processor.stop_animations(&texts(&["a", "b"]), &|animation: u32, outputs: Vec<String>| {
        log.borrow_mut().push((animation, outputs));
        (animation, animation % 2 == 1)
    });
    assert_eq!(processor.on_going_animations, vec![1, 3, 5]);
    let told: Vec<u32> = log.borrow().iter().map(|entry| entry.0).collect();
    assert_eq!(told, vec![1, 2, 3, 4, 5]);
    assert!(log.borrow().iter().all(|entry| entry.1 == texts(&["a", "b"])));
    processor.stop_animations(&texts(&["a"]), &|animation: u32, _: Vec<String>| (animation, false));
    assert!(processor.on_going_animations.is_empty());
}

#[test]
fn a_frame_goes_to_the_outputs_that_are_left() {
    let send = |mut log: Vec<(Vec<String>, Vec<u8>)>, outputs: Vec<String>, frame: Vec<u8>| {
        log.push((outputs, frame));
        (log, true)
    };
    let mut outputs = texts(&["a", "b", "c"]);
    let (log, exit) = send_frame(vec![1], &mut outputs, StopEvent::Timeout, Vec::new(), &send);
    assert!(!exit);
    let removed = StopEvent::Remove(texts(&["b", "x"]));
    let (log, exit) = send_frame(vec![2], &mut outputs, removed, log, &send);
    assert!(!exit);
    let removed = StopEvent::Remove(Vec::new());
    let (log, exit) = send_frame(vec![3], &mut outputs, removed, log, &send);
    assert!(!exit);
    assert_eq!(outputs, texts(&["a", "c"]));
    let removed = StopEvent::Remove(texts(&["c", "a"]));
    let (log, exit) = send_frame(vec![4], &mut outputs, removed, log, &send);
    assert!(exit);
    assert!(outputs.is_empty());
    assert_eq!(
        log,
        vec![
            (texts(&["a", "b", "c"]), vec![1]),
            (texts(&["a", "c"]), vec![2]),
            (texts(&["a", "c"]), vec![3]),
        ]
    );
}

#[test]
fn animations_exit_when_nobody_listens() {
    let mut outputs = texts(&["a"]);
    let refuse = |sent: u32, _: Vec<String>, _: Vec<u8>| (sent + 1, false);
    let accept = |sent: u32, _: Vec<String>, _: Vec<u8>| (sent + 1, true);
    assert_eq!(send_frame(vec![1], &mut outputs, StopEvent::Timeout, 0, &refuse), (1, true));
    assert_eq!(send_frame(vec![1], &mut outputs, StopEvent::Disconnected, 0, &accept), (0, true));
    assert_eq!(send_frame(vec![1], &mut outputs, StopEvent::Timeout, 0, &accept), (1, false));
    assert_eq!(outputs, texts(&["a"]));
}

#[test]
fn an_event_leaves_at_most_one_message() {
    let mut outputs = texts(&["a", "b"]);
    assert_eq!(
        frame_message(vec![1], &mut outputs, StopEvent::Timeout),
        Some((texts(&["a", "b"]), vec![1]))
    );
    assert_eq!(
        frame_message(vec![2], &mut outputs, StopEvent::Remove(texts(&["a"]))),
        Some((texts(&["b"]), vec![2]))
    );
    assert_eq!(outputs, texts(&["b"]));
    assert_eq!(frame_message(vec![3], &mut outputs, StopEvent::Disconnected), None);
    assert_eq!(outputs, texts(&["b"]));
    assert_eq!(frame_message(vec![4], &mut outputs, StopEvent::Remove(texts(&["b"]))), None);
    assert!(outputs.is_empty());
}

#[test]
fn frames_wait_for_what_is_left_of_their_time() {
    assert_eq!(frame_timeout(30, 10_000_000), 20_000_000);
    assert_eq!(frame_timeout(30, 30_000_000), 0);
    assert_eq!(frame_timeout(30, u128::MAX), 0);
    assert_eq!(frame_timeout(0, 0), 0);
}

/// An animation of which all messages are known.
type Told = (u32, Vec<Vec<String>>);

fn tell(mut animation: Told, outputs: Vec<String>) -> (Told, bool) {
    animation.1.push(outputs);
    let alive = animation.0 < 100;
    (animation, alive)
}

fn pixel(bytes: [u8; 4]) -> DynamicImage {
    let buffer: ImageBuffer<Rgba<u8>, Vec<u8>> =
        ImageBuffer::from_raw(1, 1, bytes.to_vec()).unwrap();
    DynamicImage::ImageRgba8(buffer)
}

#[test]
fn older_animations_leave_a_group_before_it_shows_a_picture() {
    let codec = FrameCodec { comp: xor, decomp: unxor };
    let mut processor: Processor<(), Told> = Processor::new(());
    processor.on_going_animations = vec![(1, Vec::new()), (100, Vec::new()), (2, Vec::new())];
    let mut batch = plan("");
    let request = img("", false);
    for group in 0..2 {
        assert_eq!(processor.next_group(&mut batch, &tell), Some((1, 1)));
        assert!(batch.told);
        let started = processor
            .show_picture(
                &mut batch,
                &backgrounds(),
                &request,
                pixel([200, 10, 0, 7]),
                None,
                (10 + group, Vec::new()),
                (20 + group, Vec::new()),
                &codec,
            )
            .unwrap();
        assert_eq!(started.transition.unwrap().goal, vec![0, 10, 200, 7]);
        assert!(started.gif.is_none());
    }
    let (first, second) = (texts(&["c", "a"]), texts(&["b"]));
    assert_eq!(processor.next_group(&mut batch, &tell), None);
    assert_eq!(
        processor.on_going_animations,
        vec![
            (1, vec![first.clone(), second.clone()]),
            (2, vec![first.clone(), second.clone()]),
            (10, vec![second.clone()]),
            (11, Vec::new()),
        ]
    );
    assert_eq!(
        batch.finish(),
        Ok(vec![
            (first, vec![10, 0, 10 ^ 30, 0]),
            (second, vec![50 ^ 30, 50 ^ 30, 50 ^ 70, 0]),
        ])
    );
}

#[test]
fn pictures_are_brought_to_size_before_they_are_shown() {
    let codec = FrameCodec { comp: xor, decomp: unxor };
    let mut processor: Processor<(), Told> = Processor::new(());
    let mut batch = plan("b");
    assert_eq!(processor.next_group(&mut batch, &tell), Some((1, 1)));
    let buffer: ImageBuffer<Rgba<u8>, Vec<u8>> =
        ImageBuffer::from_raw(2, 1, vec![9, 8, 7, 6, 9, 8, 7, 6]).unwrap();
    let started = processor
        .show_picture(
            &mut batch,
            &backgrounds(),
            &img("b", true),
            DynamicImage::ImageRgba8(buffer),
            Some(ImageFormat::Gif),
            (1, Vec::new()),
            (2, Vec::new()),
            &codec,
        )
        .unwrap();
    assert!(started.transition.is_none());
    assert_eq!(started.gif.unwrap().first_frame, vec![7, 8, 9, 6]);
    assert_eq!(processor.on_going_animations, vec![(2, Vec::new())]);
    assert_eq!(
        batch.finish(),
        Ok(vec![(texts(&["b"]), vec![50 ^ 7, 50 ^ 8, 50 ^ 9, 2 ^ 6])])
    );
}

#[test]
fn a_picture_without_pixels_is_not_shown() {
    let codec = FrameCodec { comp: xor, decomp: unxor };
    let mut processor: Processor<(), Told> = Processor::new(());
    processor.on_going_animations = vec![(100, Vec::new()), (1, Vec::new())];
    let mut batch = plan("b");
    assert_eq!(processor.next_group(&mut batch, &tell), Some((1, 1)));
    let started = processor.show_picture(
        &mut batch,
        &backgrounds(),
        &img("b", false),
        DynamicImage::new_rgb8(0, 1),
        None,
        (10, Vec::new()),
        (20, Vec::new()),
        &codec,
    );
    assert!(started.is_none());
    assert!(batch.results.is_empty());
    assert_eq!(processor.on_going_animations, vec![(1, vec![texts(&["b"])])]);
}

#[test]
fn a_stream_is_shown_group_by_group() {
    let mut processor: Processor<(), Told> = Processor::new(());
    processor.on_going_animations = vec![(1, Vec::new())];
    let mut batch = plan("");
    let mut shown = 0u8;
    while let Some(size) = processor.next_group(&mut batch, &tell) {
        assert_eq!(size, (1, 1));
        shown += 1;
        let stop = (10 + shown as u32, Vec::new());
        let stream = processor.stream_started(&mut batch, Ok(vec![shown; 4]), stop).ok().unwrap();
        assert_eq!(stream.frame, vec![shown; 4]);
    }
    assert_eq!(shown, 2);
    let (first, second) = (texts(&["c", "a"]), texts(&["b"]));
    assert_eq!(
        processor.on_going_animations,
        vec![
            (1, vec![first.clone(), second.clone()]),
            (11, vec![second.clone()]),
            (12, Vec::new()),
        ]
    );
    assert_eq!(batch.finish(), Ok(vec![(first, vec![1; 4]), (second, vec![2; 4])]));
}

#[test]
fn a_stream_that_does_not_start_ends_the_request() {
    let errors = vec![
        (StreamError::Spawn("gone".to_string()), "Failed to spawn child process: gone"),
        (StreamError::NoStdout, "Couldn't capture child process stdout."),
        (StreamError::Read("eof".to_string()), "Failed to read child stdout: eof"),
    ];
    for (error, message) in errors {
        let mut processor: Processor<(), u32> = Processor::new(());
        let mut batch = plan("");
        assert_eq!(processor.next_group(&mut batch, &keep), Some((1, 1)));
        assert!(processor.stream_started(&mut batch, Ok(vec![1; 4]), 5).is_ok());
        assert_eq!(processor.next_group(&mut batch, &keep), Some((1, 1)));
        let answer = processor.stream_started(&mut batch, Err(error), 6).err().unwrap();
        assert_eq!(answer, Err(message.to_string()));
        assert_eq!(processor.on_going_animations, vec![5]);
        assert_eq!(batch.results, vec![(texts(&["c", "a"]), vec![1; 4])]);
    }
}
