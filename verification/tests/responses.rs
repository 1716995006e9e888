use filmreel::json::JsonVal;
use filmreel::cut::Register;
use filmreel::frame::{Frame, InstructionSet, Protocol, Request};
use filmreel::response::{Response, Validator};
use filmreel::selector::parse_selector;
use filmreel::take::process_response;

fn jstr(s: &str) -> JsonVal {
    JsonVal::Str(s.chars().collect())
}

fn jnum(s: &str) -> JsonVal {
    JsonVal::Num(s.chars().collect())
}

fn jarr(items: Vec<JsonVal>) -> JsonVal {
    JsonVal::Arr(items)
}

fn jobj(pairs: Vec<(&str, JsonVal)>) -> JsonVal {
    let mut es: Vec<(Vec<char>, JsonVal)> = Vec::new();
    for (k, v) in pairs {
        filmreel::json::obj_insert(&mut es, k.chars().collect(), v);
    }
    JsonVal::Obj(es)
}

fn validation(rules: Vec<(&str, bool, bool)>) -> Option<Vec<(Vec<char>, Validator)>> {
    let mut out: Vec<(Vec<char>, Validator)> = Vec::new();
    for (k, partial, unordered) in rules {
        out.push((k.chars().collect(), Validator { partial, unordered }));
    }
    Some(out)
}

fn resp(body: JsonVal, status: u32) -> Response {
    Response {
        body: Some(body),
        etc: Some(jobj(vec![])),
        validation: None,
        status,
    }
}

#[test]
fn test_match_payload_response() {
    let mut set = InstructionSet::new();
    set.insert_write("USER_ID", "'response'.'body'.'id'");
    set.insert_write("CREATED", "'response'.'body'.'created'");
    set.insert_write("ignore", "'response'.'body'.'array'.[0].'ignore'");
    let frame_resp = resp(
        jobj(vec![
            ("id", jstr("${USER_ID}")),
            ("created", jstr("${CREATED}")),
            ("array", jarr(vec![jobj(vec![("ignore", jstr("${ignore}"))])])),
        ]),
        0,
    );
    let payload = resp(
        jobj(vec![
            ("id", jstr("ID_010101")),
            ("created", jnum("101010")),
            ("array", jarr(vec![jobj(vec![("ignore", jstr("value"))])])),
        ]),
        0,
    );
    let matches = frame_resp.match_payload_response(&set, &payload).unwrap().unwrap();
    assert_eq!(matches.len(), 3);
    assert_eq!(matches[0].0, "CREATED");
    assert!(matches[0].1.deep_eq(&jnum("101010")));
    assert_eq!(matches[1].0, "USER_ID");
    assert!(matches[1].1.deep_eq(&jstr("ID_010101")));
    assert_eq!(matches[2].0, "ignore");
    assert!(matches[2].1.deep_eq(&jstr("value")));
}

#[test]
fn partial_object_validation_drops_extra_keys() {
    let mut frame = Response {
        body: Some(jobj(vec![
            ("A", JsonVal::Bool(true)),
            ("B", JsonVal::Bool(true)),
            ("C", JsonVal::Bool(true)),
        ])),
        etc: Some(jobj(vec![])),
        validation: validation(vec![("'response'.'body'", true, false)]),
        status: 200,
    };
    let mut payload = resp(
        jobj(vec![
            ("A", JsonVal::Bool(true)),
            ("B", JsonVal::Bool(true)),
            ("C", JsonVal::Bool(true)),
            ("D", JsonVal::Bool(true)),
        ]),
        200,
    );
    frame.apply_validation(&mut payload).unwrap();
    assert!(frame == payload);
}

#[test]
fn partial_array_validation_needs_a_contiguous_ordered_run() {
    let steps = parse_selector(".").unwrap();
    let rule = Validator { partial: true, unordered: false };
    let self_body = jarr(vec![jstr("A"), jstr("B"), jstr("C")]);

    let mut other = jarr(vec![jstr("X"), jstr("A"), jstr("B"), jstr("C"), jstr("Y")]);
    rule.apply_partial(".", &steps, &self_body, &mut other).unwrap();
    assert!(other.deep_eq(&self_body));

    let mut other2 = jarr(vec![jstr("A"), jstr("B"), jstr("B"), jstr("C")]);
    rule.apply_partial(".", &steps, &self_body, &mut other2).unwrap();
    assert!(other2.deep_eq(&jarr(vec![jstr("A"), jstr("B"), jstr("B"), jstr("C")])));
}

#[test]
fn unordered_array_with_duplicates() {
    let mut frame = Response {
        body: Some(jarr(vec![jstr("A"), jstr("B"), jstr("C"), jstr("A"), jstr("A")])),
        etc: Some(jobj(vec![])),
        validation: validation(vec![("'response'.'body'", false, true)]),
        status: 200,
    };
    let mut payload = resp(
        jarr(vec![jstr("A"), jstr("C"), jstr("A"), jstr("B"), jstr("A")]),
        200,
    );
    frame.apply_validation(&mut payload).unwrap();
    assert!(frame == payload);
}

#[test]
fn unordered_array_with_duplicates_detects_a_missing_copy() {
    let mut frame = Response {
        body: Some(jarr(vec![jstr("A"), jstr("A"), jstr("B")])),
        etc: Some(jobj(vec![])),
        validation: validation(vec![("'response'.'body'", false, true)]),
        status: 200,
    };
    let mut payload = resp(jarr(vec![jstr("A"), jstr("B")]), 200);
    frame.apply_validation(&mut payload).unwrap();
    assert!(!(frame == payload));
}

#[test]
fn unordered_ignores_object_values_equality_still_catches_them() {
    let mut frame = Response {
        body: Some(jarr(vec![jnum("0"), jobj(vec![("A", jnum("1"))]), jnum("1")])),
        etc: Some(jobj(vec![])),
        validation: validation(vec![("'response'.'body'", false, true)]),
        status: 200,
    };
    let mut payload = resp(
        jarr(vec![jnum("1"), jobj(vec![("A", jnum("0"))]), jnum("0")]),
        200,
    );
    frame.apply_validation(&mut payload).unwrap();
    assert!(payload.body.as_ref().unwrap().deep_eq(&jarr(vec![
        jnum("0"),
        jobj(vec![("A", jnum("0"))]),
        jnum("1"),
    ])));
    assert!(!(frame == payload));
}

#[test]
fn validation_selectors_must_stay_under_the_response_body() {
    let r = Response {
        body: None,
        etc: None,
        validation: validation(vec![("'request'.'body'", true, false)]),
        status: 0,
    };
    assert!(r.validate().is_err());
    let ok = Response {
        body: None,
        etc: None,
        validation: validation(vec![("'response'.'body'.'k'", true, false)]),
        status: 0,
    };
    assert!(ok.validate().is_ok());
}

#[test]
fn test_process_response() {
    let mut set = InstructionSet::new();
    set.insert_write("USER_ID", "'response'.'body'");
    let mut frame = Frame {
        protocol: Protocol::HTTP,
        cut: set,
        request: Request {
            body: Some(jobj(vec![])),
            uri: jstr(""),
            etc: Some(jobj(vec![])),
            header: None,
            entrypoint: None,
        },
        response: resp(jstr("created user: ${USER_ID}"), 200),
    };
    let mut register = Register::new();
    let mut payload = resp(jstr("created user: BIG_BEN"), 200);
    let matched = process_response(&mut frame, &mut register, &mut payload).unwrap();
    assert!(matched);
    assert!(register.get("USER_ID").unwrap().deep_eq(&jstr("BIG_BEN")));
    assert!(frame.response.body.as_ref().unwrap().deep_eq(&jstr("created user: BIG_BEN")));
}

#[test]
fn process_response_reports_a_value_mismatch() {
    let mut frame = Frame {
        protocol: Protocol::HTTP,
        cut: InstructionSet::new(),
        request: Request {
            body: None,
            uri: jstr(""),
            etc: None,
            header: None,
            entrypoint: None,
        },
        response: resp(jstr("expected"), 200),
    };
    let mut register = Register::new();
    let mut payload = resp(jstr("actual"), 200);
    let matched = process_response(&mut frame, &mut register, &mut payload).unwrap();
    assert!(!matched);
}

#[test]
fn process_response_flushes_ignored_names_on_match() {
    let mut set = InstructionSet::new();
    set.insert_write("USER_ID", "'response'.'body'.'id'");
    set.insert_write("tmp", "'response'.'body'.'note'");
    let mut frame = Frame {
        protocol: Protocol::HTTP,
        cut: set,
        request: Request {
            body: None,
            uri: jstr(""),
            etc: None,
            header: None,
            entrypoint: None,
        },
        response: resp(
            jobj(vec![("id", jstr("${USER_ID}")), ("note", jstr("${tmp}"))]),
            200,
        ),
    };
    let mut register = Register::new();
    let mut payload = resp(jobj(vec![("id", jstr("u1")), ("note", jstr("n1"))]), 200);
    let matched = process_response(&mut frame, &mut register, &mut payload).unwrap();
    assert!(matched);
    assert!(register.contains_key("USER_ID"));
    assert!(!register.contains_key("tmp"));
}
