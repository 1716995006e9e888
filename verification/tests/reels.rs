use filmreel::cut::Register;
use filmreel::json::JsonVal;
use filmreel::record::{component_parts, parse_range, take_output};
use filmreel::reel::{parse_sequence, FrameType, MetaFrame, Reel, SEQUENCE_DUPE_ERR};
use filmreel::FrError;

fn jstr(s: &str) -> JsonVal {
    JsonVal::Str(s.chars().collect())
}

#[test]
fn test_metaframe_try_from() {
    let m = MetaFrame::try_from_path("./reel_name.01s.frame_name.fr.json")
        .expect("test_metaframe_try_from failed try_from");
    assert_eq!(m.reel_name, "reel_name");
    assert_eq!(m.name, "frame_name");
    assert_eq!(m.step, "01s");
    assert_eq!(m.step_int, 1);
    assert_eq!(m.frame_type, FrameType::Success);
    assert_eq!(m.path, "./reel_name.01s.frame_name.fr.json");
    assert!(m.alt_name.is_none());
    assert_eq!(m.get_filename(), "reel_name.01s.frame_name.fr.json");
}

#[test]
fn test_validate() {
    let reel = Reel {
        dir: ".".to_string(),
        frames: vec![
            MetaFrame::try_from_path("./reel.01s.frame1.fr.json").unwrap(),
            MetaFrame::try_from_path("./reel.01e.frame2.fr.json").unwrap(),
        ],
    };
    assert!(reel.validate().is_ok());
}

#[test]
fn test_validate_err() {
    let reel = Reel {
        dir: ".".to_string(),
        frames: vec![
            MetaFrame::try_from_path("./reel.01s.frame1.fr.json").unwrap(),
            MetaFrame::try_from_path("./reel.01s.frame2.fr.json").unwrap(),
        ],
    };
    assert_eq!(
        reel.validate().unwrap_err(),
        FrError::ReelParsef(
            SEQUENCE_DUPE_ERR,
            "reel.01s.frame1.fr.json and reel.01s.frame2.fr.json".to_string()
        )
    );
}

#[test]
fn parse_sequence_reads_number_and_type() {
    assert_eq!(parse_sequence("02se").unwrap(), (2, FrameType::PsError));
    assert_eq!(parse_sequence("10s_1").unwrap(), (10, FrameType::Success));
    assert_eq!(parse_sequence("011e_8").unwrap(), (11, FrameType::Error));
    assert_eq!(parse_sequence("01e").unwrap(), (1, FrameType::Error));
    assert!(parse_sequence("01x").is_err());
    assert!(parse_sequence("0.1s").is_err());
    assert!(parse_sequence("1_2_3s").is_err());
}

#[test]
fn reel_ordering_and_ignored_key_flushing() {
    let paths = vec![
        "./u.02s.read.fr.json".to_string(),
        "./u.01s.create.fr.json".to_string(),
    ];
    let reel = Reel::new(".", &paths, None).unwrap();
    assert_eq!(reel.frames.len(), 2);
    assert_eq!(reel.frames[0].name, "create");
    assert_eq!(reel.frames[1].name, "read");

    let mut register = Register::new();
    register.write_operation("USER_ID", jstr("u1")).unwrap();
    register.write_operation("tmp", jstr("scratch")).unwrap();
    register.flush_ignored();
    assert!(register.contains_key("USER_ID"));
    assert!(!register.contains_key("tmp"));
}

#[test]
fn reel_range_filters_by_whole_sequence_number() {
    let paths = vec![
        "./u.01s.a.fr.json".to_string(),
        "./u.02s.b.fr.json".to_string(),
        "./u.03s.c.fr.json".to_string(),
    ];
    let reel = Reel::new(".", &paths, Some((2, 3))).unwrap();
    assert_eq!(reel.frames.len(), 2);
    assert_eq!(reel.frames[0].name, "b");
    assert_eq!(reel.frames[1].name, "c");
}

#[test]
fn success_only_keeps_success_frames() {
    let paths = vec![
        "./u.01s.a.fr.json".to_string(),
        "./u.02e.b.fr.json".to_string(),
    ];
    let reel = Reel::new(".", &paths, None).unwrap();
    let only = reel.success_only();
    assert_eq!(only.frames.len(), 1);
    assert_eq!(only.frames[0].name, "a");
}

#[test]
fn cut_paths_follow_the_reel_name() {
    let paths = vec!["./post.01s.body.fr.json".to_string()];
    let reel = Reel::new("./test_data", &paths, None).unwrap();
    assert_eq!(reel.get_default_cut_path(), "./test_data/post.cut.json");
    assert_eq!(
        Reel::get_frame_dir_glob("./test_data", "post"),
        "./test_data/post.*.*.fr.json"
    );
    assert_eq!(
        reel.frames[0].get_cut_file("./test_data"),
        "./test_data/post.cut.json"
    );
}

#[test]
fn test_parse_range() {
    assert_eq!(parse_range("04:08").unwrap(), Some((4, 8)));
    assert_eq!(parse_range(":10").unwrap(), Some((0, 10)));
    assert_eq!(parse_range("3:").unwrap(), Some((3, u32::MAX)));
    assert_eq!(parse_range("7").unwrap(), None);
    assert!(parse_range("number:").is_err());
    assert!(parse_range(":number").is_err());
}

#[test]
fn component_arguments_split_on_the_first_ampersand() {
    assert_eq!(
        component_parts("./dir&reel"),
        Some(("./dir".to_string(), "reel".to_string()))
    );
    assert_eq!(component_parts("no_separator"), None);
}

#[test]
fn take_output_names_the_artifact_after_the_frame_stem() {
    assert_eq!(
        take_output("./out", "./test_data/post.01s.body.fr.json"),
        "./out/post.01s.body.tk.json"
    );
}
