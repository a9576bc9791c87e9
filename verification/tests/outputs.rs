use wallpaper_processor::groups::{get_outputs_groups, remove_texts};
use wallpaper_processor::outputs::{contains_text, find_background, get_real_outputs, Background};

fn bg(name: &str, dimensions: (u32, u32), img: Option<&str>) -> Background {
    Background {
        output_name: name.to_string(),
        dimensions,
        img: img.map(|i| i.as_bytes().to_vec()),
        current_img: Vec::new(),
    }
}

fn three() -> Vec<Background> {
    vec![
        bg("eDP-1", (1920, 1080), None),
        bg("HDMI-A-1", (1280, 720), None),
        bg("DP-2", (1920, 1080), None),
    ]
}

fn texts(list: &[&str]) -> Vec<String> {
    list.iter().map(|s| s.to_string()).collect()
}

#[test]
fn empty_request_means_all_outputs() {
    assert_eq!(get_real_outputs(&three(), ""), texts(&["eDP-1", "HDMI-A-1", "DP-2"]));
    assert!(get_real_outputs(&Vec::new(), "").is_empty());
}

#[test]
fn named_outputs_keep_the_order_of_the_request() {
    assert_eq!(get_real_outputs(&three(), "DP-2,eDP-1"), texts(&["DP-2", "eDP-1"]));
}

#[test]
fn unknown_outputs_are_left_out() {
    assert_eq!(get_real_outputs(&three(), "VGA-1,DP-2,dp-2"), texts(&["DP-2"]));
    assert!(get_real_outputs(&three(), "VGA-1").is_empty());
    assert!(get_real_outputs(&three(), " eDP-1").is_empty());
}

#[test]
fn repeated_outputs_count_once() {
    assert_eq!(
        get_real_outputs(&three(), "DP-2,eDP-1,DP-2,DP-2,eDP-1"),
        texts(&["DP-2", "eDP-1"])
    );
}

#[test]
fn empty_parts_name_the_output_without_a_name() {
    assert!(get_real_outputs(&three(), ",").is_empty());
    assert_eq!(get_real_outputs(&three(), ",DP-2,"), texts(&["DP-2"]));
    let bgs = vec![bg("", (1, 1), None), bg("a", (1, 1), None)];
    assert_eq!(get_real_outputs(&bgs, "a,"), texts(&["a", ""]));
}

#[test]
fn names_may_hold_any_character() {
    let bgs = vec![bg("écran 1", (1, 1), None), bg("画面", (1, 1), None)];
    assert_eq!(get_real_outputs(&bgs, "画面,écran 1"), texts(&["画面", "écran 1"]));
}

#[test]
fn backgrounds_are_found_by_name() {
    assert_eq!(find_background(&three(), &"DP-2".to_string()), Some(2));
    assert_eq!(find_background(&three(), &"VGA-1".to_string()), None);
    let bgs = vec![bg("a", (1, 1), None), bg("b", (2, 2), None), bg("b", (3, 3), None)];
    assert_eq!(find_background(&bgs, &"b".to_string()), Some(1));
    assert!(contains_text(&texts(&["a", "b"]), &"b".to_string()));
    assert!(!contains_text(&texts(&["a", "b"]), &"c".to_string()));
}

#[test]
fn removing_texts_keeps_the_others_in_order() {
    assert_eq!(
        remove_texts(&texts(&["a", "b", "c", "b", "d"]), &texts(&["b", "x"])),
        texts(&["a", "c", "d"])
    );
    assert_eq!(remove_texts(&texts(&["a"]), &Vec::new()), texts(&["a"]));
}

#[test]
fn outputs_of_one_size_form_a_group() {
    let groups = get_outputs_groups(&three(), texts(&["eDP-1", "HDMI-A-1", "DP-2"]));
    assert_eq!(groups, vec![texts(&["DP-2", "eDP-1"]), texts(&["HDMI-A-1"])]);
}

#[test]
fn companions_come_in_the_order_of_the_backgrounds() {
    let bgs = vec![
        bg("a", (10, 10), Some("x")),
        bg("b", (10, 10), Some("x")),
        bg("c", (10, 10), Some("x")),
    ];
    let groups = get_outputs_groups(&bgs, texts(&["c", "b", "a"]));
    assert_eq!(groups, vec![texts(&["a", "b", "c"])]);
    let groups = get_outputs_groups(&bgs, texts(&["c", "a", "b"]));
    assert_eq!(groups, vec![texts(&["b", "a", "c"])]);
}

#[test]
fn different_images_form_different_groups() {
    let bgs = vec![
        bg("a", (10, 10), Some("x")),
        bg("b", (10, 10), Some("y")),
        bg("c", (10, 10), None),
        bg("d", (10, 10), Some("x")),
        bg("e", (10, 20), Some("x")),
        bg("f", (20, 10), Some("x")),
    ];
    let groups = get_outputs_groups(&bgs, texts(&["a", "b", "c", "d", "e", "f"]));
    assert_eq!(
        groups,
        vec![
            texts(&["f"]),
            texts(&["e"]),
            texts(&["d", "a"]),
            texts(&["c"]),
            texts(&["b"]),
        ]
    );
}

#[test]
fn only_requested_outputs_are_grouped() {
    let groups = get_outputs_groups(&three(), texts(&["eDP-1"]));
    assert_eq!(groups, vec![texts(&["eDP-1"])]);
    assert!(get_outputs_groups(&three(), Vec::new()).is_empty());
}

#[test]
fn every_output_is_in_exactly_one_group() {
    let mut bgs = Vec::new();
    let mut outputs = Vec::new();
    for i in 0..12u32 {
        bgs.push(bg(&format!("o{}", i), (i % 3, 1), if i % 2 == 0 { None } else { Some("p") }));
        outputs.push(format!("o{}", i));
    }
    let groups = get_outputs_groups(&bgs, outputs.clone());
    assert_eq!(groups.len(), 6);
    let mut all: Vec<String> = groups.concat();
    all.sort();
    outputs.sort();
    assert_eq!(all, outputs);
}

#[test]
fn images_are_told_apart_by_the_bytes_of_their_paths() {
    let mut bgs = vec![
        bg("a", (10, 10), None),
        bg("b", (10, 10), None),
        bg("c", (10, 10), None),
    ];
    bgs[0].img = Some(vec![0xff, b'x']);
    bgs[1].img = Some(vec![0xfe, b'x']);
    bgs[2].img = Some(vec![0xff, b'x']);
    let groups = get_outputs_groups(&bgs, texts(&["a", "b", "c"]));
    assert_eq!(groups, vec![texts(&["c", "a"]), texts(&["b"])]);
}
