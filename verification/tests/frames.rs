use filmreel::json::JsonVal;
use filmreel::cut::Register;
use filmreel::frame::{Frame, InstructionSet, Protocol, Request};
use filmreel::response::Response;

fn jstr(s: &str) -> JsonVal {
    JsonVal::Str(s.chars().collect())
}

fn jobj(pairs: Vec<(&str, JsonVal)>) -> JsonVal {
    let mut es: Vec<(Vec<char>, JsonVal)> = Vec::new();
    for (k, v) in pairs {
        filmreel::json::obj_insert(&mut es, k.chars().collect(), v);
    }
    JsonVal::Obj(es)
}

fn reg(pairs: Vec<(&str, JsonVal)>) -> Register {
    let mut r = Register::new();
    for (k, v) in pairs {
        r.write_operation(k, v).expect("RegisterInsertError");
    }
    r
}

fn from_set(names: Vec<&str>) -> InstructionSet {
    let mut set = InstructionSet::new();
    for n in names {
        set.insert_read(n);
    }
    set
}

#[test]
fn test_instruction_set_validate() {
    let mut set = InstructionSet::new();
    set.insert_read("USER_ID");
    set.insert_write("USER_ID", "'response'.'body'.'id'");
    assert!(set.validate().is_err());
}

#[test]
fn instruction_set_validate_accepts_disjoint_names() {
    let mut set = InstructionSet::new();
    set.insert_read("USER_TOKEN");
    set.insert_write("USER_ID", "'response'.'body'.'id'");
    assert!(set.validate().is_ok());
    assert!(set.contains("USER_TOKEN"));
    assert!(set.contains("USER_ID"));
    assert!(!set.contains("OTHER"));
    assert!(!set.is_empty());
}

#[test]
fn test_hydrate() {
    let register = reg(vec![
        ("EMAIL", jstr("new_user@humanmail.com")),
        ("FIRST", jstr("Mario")),
        ("HOST", jstr("localhost")),
        ("LAST", jstr("Rossi")),
        ("METHOD", jstr("CreateUser")),
        ("OBJECT", jobj(vec![("key", jstr("value"))])),
        ("PORT", jstr("8080")),
        ("USER_TOKEN", jstr("Bearer jWt")),
    ]);
    let mut frame = Frame {
        protocol: Protocol::GRPC,
        cut: from_set(vec![
            "EMAIL", "FIRST", "HOST", "LAST", "METHOD", "OBJECT", "PORT", "USER_TOKEN",
        ]),
        request: Request {
            body: Some(jobj(vec![
                ("name", jstr("${FIRST} ${LAST}")),
                ("email", jstr("${EMAIL}")),
                ("object", jstr("${OBJECT}")),
            ])),
            uri: jstr("user_api.User/${METHOD}"),
            etc: Some(jobj(vec![])),
            header: Some(jobj(vec![("Authorization", jstr("${USER_TOKEN}"))])),
            entrypoint: Some(jstr("${HOST}:${PORT}")),
        },
        response: Response {
            body: Some(jstr("${RESPONSE}")),
            etc: Some(jobj(vec![])),
            validation: None,
            status: 0,
        },
    };
    frame.hydrate(&register, false).unwrap();
    assert!(frame.request.body.as_ref().unwrap().deep_eq(&jobj(vec![
        ("name", jstr("Mario Rossi")),
        ("email", jstr("new_user@humanmail.com")),
        ("object", jobj(vec![("key", jstr("value"))])),
    ])));
    assert!(frame.request.header.as_ref().unwrap().deep_eq(&jobj(vec![(
        "Authorization",
        jstr("Bearer jWt")
    )])));
    assert!(frame.request.entrypoint.as_ref().unwrap().deep_eq(&jstr("localhost:8080")));
    assert!(frame.request.uri.deep_eq(&jstr("user_api.User/CreateUser")));
    assert!(frame.response.body.as_ref().unwrap().deep_eq(&jstr("${RESPONSE}")));
}

#[test]
fn test_key_hydrate() {
    let register = reg(vec![("KEY", jstr("key")), ("KEY_2", jstr("key_2"))]);
    let mut frame = Frame {
        protocol: Protocol::GRPC,
        cut: from_set(vec!["KEY", "KEY_2"]),
        request: Request {
            body: Some(jobj(vec![])),
            uri: jstr(""),
            etc: Some(jobj(vec![])),
            header: None,
            entrypoint: None,
        },
        response: Response {
            body: Some(jobj(vec![
                ("${KEY}", jstr("val")),
                ("${KEY_2}", jstr("val_2")),
                ("${KEY}${KEY_2}", jstr("val_3")),
            ])),
            etc: Some(jobj(vec![])),
            validation: None,
            status: 0,
        },
    };
    frame.hydrate(&register, false).unwrap();
    assert!(frame.response.body.as_ref().unwrap().deep_eq(&jobj(vec![
        ("key", jstr("val")),
        ("key_2", jstr("val_2")),
        ("keykey_2", jstr("val_3")),
    ])));
}

#[test]
fn frame_new_reads_a_document_and_hydrates_it() {
    let frame_json = r#"
{
  "protocol": "gRPC",
  "cut": {
    "from": [
      "EMAIL",
      "FIRST",
      "HOST",
      "LAST",
      "METHOD",
      "OBJECT",
      "PORT",
      "USER_TOKEN"
    ]
  },
  "request": {
    "header": {
      "Authorization": "${USER_TOKEN}"
    },
    "entrypoint": "${HOST}:${PORT}",
    "body": {
      "name": "${FIRST} ${LAST}",
      "email": "${EMAIL}",
      "object": "${OBJECT}"
    },
    "uri": "user_api.User/${METHOD}"
  },
  "response": {
    "body": "${RESPONSE}",
    "status": 0
  }
}
    "#;
    let register = reg(vec![
        ("EMAIL", jstr("new_user@humanmail.com")),
        ("FIRST", jstr("Mario")),
        ("HOST", jstr("localhost")),
        ("LAST", jstr("Rossi")),
        ("METHOD", jstr("CreateUser")),
        ("OBJECT", jobj(vec![("key", jstr("value"))])),
        ("PORT", jstr("8080")),
        ("USER_TOKEN", jstr("Bearer jWt")),
    ]);
    let mut frame = Frame::new(frame_json).unwrap();
    assert!(matches!(frame.protocol, Protocol::GRPC));
    frame.hydrate(&register, false).unwrap();
    assert!(frame.request.body.as_ref().unwrap().deep_eq(&jobj(vec![
        ("name", jstr("Mario Rossi")),
        ("email", jstr("new_user@humanmail.com")),
        ("object", jobj(vec![("key", jstr("value"))])),
    ])));
    assert!(frame.request.entrypoint.as_ref().unwrap().deep_eq(&jstr("localhost:8080")));
    assert!(frame.request.uri.deep_eq(&jstr("user_api.User/CreateUser")));
    assert!(frame.response.body.as_ref().unwrap().deep_eq(&jstr("${RESPONSE}")));
}

#[test]
fn frame_new_rejects_a_shared_read_and_write_name() {
    let frame_json = r#"
{
  "protocol": "HTTP",
  "cut": {
    "from": ["USER_ID"],
    "to": {"USER_ID": "'response'.'body'.'id'"}
  },
  "request": {"body": {}, "uri": "GET /"},
  "response": {"body": {}, "status": 200}
}
    "#;
    assert!(Frame::new(frame_json).is_err());
}

#[test]
fn hydrating_an_undeclared_variable_is_an_error() {
    let register = reg(vec![("KNOWN", jstr("v"))]);
    let mut frame = Frame {
        protocol: Protocol::HTTP,
        cut: InstructionSet::new(),
        request: Request {
            body: Some(jstr("${KNOWN}")),
            uri: jstr(""),
            etc: None,
            header: None,
            entrypoint: None,
        },
        response: Response {
            body: None,
            etc: None,
            validation: None,
            status: 0,
        },
    };
    assert!(frame.hydrate(&register, false).is_err());
}

#[test]
fn write_variables_survive_hydration_until_enabled() {
    let register = reg(vec![("USER_ID", jstr("42"))]);
    let mut set = InstructionSet::new();
    set.insert_write("USER_ID", "'response'.'body'");
    let mut val = jstr("id: ${USER_ID}");
    Frame::hydrate_val(&set, &mut val, &register, false).unwrap();
    assert!(val.deep_eq(&jstr("id: ${USER_ID}")));
    set.set_hydrate_writes(true);
    let mut val2 = jstr("id: ${USER_ID}");
    Frame::hydrate_val(&set, &mut val2, &register, false).unwrap();
    assert!(val2.deep_eq(&jstr("id: 42")));
}

#[test]
fn request_payload_renders_body_as_json() {
    let req = Request {
        body: Some(jobj(vec![("a", JsonVal::Num("1".chars().collect()))])),
        uri: jstr("POST /x"),
        etc: None,
        header: None,
        entrypoint: None,
    };
    assert_eq!(req.to_payload(), "{\"a\":1}");
    assert_eq!(req.get_uri(), "POST /x");
}
