use filmreel::json::JsonVal;
use filmreel::frame::{Frame, Protocol, Request};
use filmreel::params::{guess_json_obj, iter_path_args, Attempts, BaseParams};
use filmreel::response::{strip_query, Response};
use filmreel::selector::{parse_selector, select_at, select_value};
use filmreel::frame::InstructionSet;

fn jstr(s: &str) -> JsonVal {
    JsonVal::Str(s.chars().collect())
}

fn jnum(s: &str) -> JsonVal {
    JsonVal::Num(s.chars().collect())
}

fn jarr(items: Vec<JsonVal>) -> JsonVal {
    JsonVal::Arr(items)
}

fn jobj(pairs: Vec<(&str, JsonVal)>) -> JsonVal {
    let mut es: Vec<(Vec<char>, JsonVal)> = Vec::new();
    for (k, v) in pairs {
        filmreel::json::obj_insert(&mut es, k.chars().collect(), v);
    }
    JsonVal::Obj(es)
}

#[test]
fn out_of_range_index_selects_nothing_without_an_error() {
    let v = jobj(vec![(
        "key",
        jarr(vec![jnum("0"), jnum("1"), jnum("2")]),
    )]);
    let steps = parse_selector("'key'.[3]").unwrap();
    assert!(select_at(&v, &steps, 0).is_none());
}

#[test]
fn selectors_walk_keys_and_indices() {
    let v = jobj(vec![(
        "key",
        jobj(vec![
            ("obj", JsonVal::Bool(true)),
            ("array", jarr(vec![JsonVal::Bool(false), JsonVal::Bool(true)])),
        ]),
    )]);
    let picked = select_value(&v, "'key'.'array'.[1]").unwrap();
    assert!(picked.deep_eq(&JsonVal::Bool(true)));
    let root = select_value(&v, ".").unwrap();
    assert!(root.deep_eq(&v));
    assert!(select_value(&v, "").is_err());
    assert!(select_value(&v, "''").is_err());
    assert!(select_value(&v, "'missing'").is_err());
}

#[test]
fn escaped_quotes_stand_for_themselves_in_keys() {
    let v = jobj(vec![("''", jstr("value from escaped quotes"))]);
    let picked = select_value(&v, "'\\'\\''").unwrap();
    assert!(picked.deep_eq(&jstr("value from escaped quotes")));
}

#[test]
fn strip_query_rewrites_whole_file_selectors() {
    assert_eq!(strip_query("'response'.'body'"), ".");
    assert_eq!(strip_query(".'response'.'body'"), ".");
    assert_eq!(strip_query("'response'.'body'.'key'"), ".'key'");
    assert_eq!(strip_query("'other'"), "'other'");
}

#[test]
fn test_init() {
    let base = BaseParams {
        timeout: 30,
        use_timestamp: false,
        tls: false,
        header: Some("initial_header".to_string()),
        address: Some("www.initial_addr.com".to_string()),
        proto_path: vec![],
        proto: vec![],
        cut_out: None,
        interactive: false,
        verbose: false,
    };
    let request = Request {
        body: Some(jobj(vec![])),
        uri: jstr("POST /it/notes"),
        etc: Some(jobj(vec![(
            "attempts",
            jobj(vec![("times", jnum("2")), ("ms", jnum("200"))]),
        )])),
        header: Some(jstr("Authorization: Bearer BIG_BEAR")),
        entrypoint: Some(jstr("localhost:8000")),
    };
    let params = base.init(request).unwrap();
    assert_eq!(params.timeout, 30);
    assert_eq!(params.use_timestamp, false);
    assert_eq!(params.tls, false);
    assert_eq!(
        params.header,
        Some("\"Authorization: Bearer BIG_BEAR\"".to_string())
    );
    assert_eq!(params.address, "localhost:8000");
    assert!(params.proto_path.is_none());
    assert!(params.proto.is_none());
    assert_eq!(params.attempts, Some(Attempts { times: 2, ms: 200 }));
}

#[test]
fn init_falls_back_to_run_wide_values() {
    let base = BaseParams {
        timeout: 10,
        use_timestamp: true,
        tls: true,
        header: Some("h".to_string()),
        address: Some("a".to_string()),
        proto_path: vec!["p".to_string()],
        proto: vec![],
        cut_out: None,
        interactive: false,
        verbose: false,
    };
    let request = Request {
        body: None,
        uri: jstr("GET /"),
        etc: None,
        header: None,
        entrypoint: None,
    };
    let params = base.init(request).unwrap();
    assert_eq!(params.header, Some("h".to_string()));
    assert_eq!(params.address, "a");
    assert_eq!(params.attempts, None);
    assert_eq!(params.proto_path, Some(vec!["p".to_string()]));

    let no_addr = BaseParams { address: None, ..base };
    let bare = Request {
        body: None,
        uri: jstr("GET /"),
        etc: None,
        header: None,
        entrypoint: None,
    };
    assert!(no_addr.init(bare).is_err());
}

#[test]
fn test_iter_path_args() {
    let path_vec = vec![
        "./first.file".to_string(),
        "./second_file".to_string(),
        "../third_file".to_string(),
    ];
    let expected = vec![
        "prefix".to_string(),
        "./first.file".to_string(),
        "prefix".to_string(),
        "./second_file".to_string(),
        "prefix".to_string(),
        "../third_file".to_string(),
    ];
    assert_eq!(iter_path_args("prefix", &path_vec), expected);
}

#[test]
fn guess_json_obj_spots_inline_documents()  {
    assert!(guess_json_obj("{\"key\": \"value\"}"));
    assert!(guess_json_obj("  {\n  \"key\": 1\n}  "));
    assert!(!guess_json_obj("./some/path.json"));
    assert!(!guess_json_obj("{not json}"));
}

#[test]
fn digit_first_variable_names_are_rejected() {
    let mut reg = filmreel::cut::Register::new();
    assert!(reg.write_operation("9LIVES", jstr("x")).is_err());
    assert!(reg.write_operation("LIVES9", jstr("x")).is_ok());
}

#[test]
fn frame_renders_to_a_document_value() {
    let frame = Frame {
        protocol: Protocol::HTTP,
        cut: InstructionSet::new(),
        request: Request {
            body: None,
            uri: jstr("GET /"),
            etc: Some(jobj(vec![])),
            header: None,
            entrypoint: None,
        },
        response: Response {
            body: Some(jstr("ok")),
            etc: Some(jobj(vec![])),
            validation: None,
            status: 200,
        },
    };
    let v = frame.to_value();
    let rendered = filmreel::codec::to_json_string(&v);
    assert_eq!(
        rendered,
        "{\"protocol\":\"HTTP\",\"request\":{\"uri\":\"GET /\"},\"response\":{\"body\":\"ok\",\"status\":200}}"
    );
}

#[test]
fn virtual_reel_join_path_prefixes_relative_paths() {
    let mut vr = filmreel::vreel::VirtualReel {
        name: "reel".to_string(),
        path: Some("./dir".to_string()),
        frames: filmreel::vreel::VirtualFrames::List(vec![
            "a.01s.x.fr.json".to_string(),
            "/abs/b.01s.y.fr.json".to_string(),
        ]),
        cut: filmreel::vreel::VirtualCut::Cut("c.cut.json".to_string()),
    };
    vr.join_path();
    match &vr.frames {
        filmreel::vreel::VirtualFrames::List(l) => {
            assert_eq!(l[0], "./dir/a.01s.x.fr.json");
            assert_eq!(l[1], "/abs/b.01s.y.fr.json");
        }
        _ => panic!("frames variant changed"),
    }
    match &vr.cut {
        filmreel::vreel::VirtualCut::Cut(c) => assert_eq!(c, "./dir/c.cut.json"),
        _ => panic!("cut variant changed"),
    }
}
