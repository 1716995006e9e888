use filmreel::json::JsonVal;
use filmreel::cut::{Match, Register, VAR_NAME_ERR};
use filmreel::FrError;

fn jstr(s: &str) -> JsonVal {
    JsonVal::Str(s.chars().collect())
}

fn jobj(pairs: Vec<(&str, JsonVal)>) -> JsonVal {
    let mut es: Vec<(Vec<char>, JsonVal)> = Vec::new();
    for (k, v) in pairs {
        filmreel::json::obj_insert(&mut es, k.chars().collect(), v);
    }
    JsonVal::Obj(es)
}

fn reg(pairs: Vec<(&str, JsonVal)>) -> Register {
    let mut r = Register::new();
    for (k, v) in pairs {
        r.write_operation(k, v).expect("RegisterInsertError");
    }
    r
}

#[test]
fn test_iter() {
    let reg = reg(vec![("FIRST_NAME", jstr("Primus")), ("RESPONSE", jstr("ALRIGHT"))]);
    let mut kv_vec = vec![];
    for (k, v) in reg.iter() {
        kv_vec.push((k, v));
    }
    assert_eq!(kv_vec.len(), 2);
    assert_eq!(kv_vec[0].0, "FIRST_NAME");
    assert!(kv_vec[0].1.deep_eq(&jstr("Primus")));
    assert_eq!(kv_vec[1].0, "RESPONSE");
    assert!(kv_vec[1].1.deep_eq(&jstr("ALRIGHT")));
}

#[test]
fn test_write_op() {
    let mut reg = reg(vec![("FIRST_NAME", jstr("Primus")), ("RESPONSE", jstr("ALRIGHT"))]);
    reg.write_operation("LAST_NAME", jstr("Secundus")).unwrap();
    assert!(reg.get("LAST_NAME").unwrap().deep_eq(&jstr("Secundus")));
}

#[test]
fn test_write_op_err() {
    let mut reg = reg(vec![("FIRST_NAME", jstr("Primus")), ("RESPONSE", jstr("ALRIGHT"))]);
    assert_eq!(
        reg.write_operation("INVALID%STRING", jstr("¯\\_(ツ)_/¯")).unwrap_err(),
        FrError::FrameParsef(VAR_NAME_ERR, "INVALID%STRING".to_string())
    );
    reg.write_operation("FIRST_NAME", jstr("Pietre")).unwrap();
    assert!(reg.get("FIRST_NAME").unwrap().deep_eq(&jstr("Pietre")));
    assert!(reg.get("RESPONSE").unwrap().deep_eq(&jstr("ALRIGHT")));
    assert_eq!(reg.iter().len(), 2);
}

fn apply_all(reg: &Register, input: &str) -> JsonVal {
    let mut val = jstr(input);
    let matches = reg.read_match(input).expect("match error");
    for mat in matches.into_iter() {
        reg.read_operation(mat, &mut val, false).unwrap();
    }
    val
}

#[test]
fn substitution_with_escape_and_fallback() {
    let reg = reg(vec![("FIRST_NAME", jstr("Slim")), ("LAST_NAME", jstr("Shady"))]);
    let out = apply_all(&reg, "My name is ${FIRST_NAME} \\${LAST_NAME}");
    assert!(out.deep_eq(&jstr("My name is Slim ${LAST_NAME}")));
}

#[test]
fn substitution_plain() {
    let reg = reg(vec![("FIRST_NAME", jstr("Slim")), ("LAST_NAME", jstr("Shady"))]);
    let out = apply_all(&reg, "My name is ${FIRST_NAME} ${LAST_NAME}");
    assert!(out.deep_eq(&jstr("My name is Slim Shady")));
}

#[test]
fn non_string_substitution_of_whole_field() {
    let reg = reg(vec![("OBJECT", jobj(vec![("k", jstr("v"))]))]);
    let out = apply_all(&reg, "${OBJECT}");
    assert!(out.deep_eq(&jobj(vec![("k", jstr("v"))])));
}

#[test]
fn escape_of_unknown_variable_still_strips_backslash() {
    let reg = Register::new();
    let matches = reg.read_match("\\${X}").expect("match error");
    assert_eq!(matches.len(), 1);
    assert!(matches!(matches[0], Match::Escape(_)));
    let mut val = jstr("\\${X}");
    let mut ms = reg.read_match("\\${X}").unwrap();
    let m = ms.remove(0);
    reg.read_operation(m, &mut val, false).unwrap();
    assert!(val.deep_eq(&jstr("${X}")));
}

#[test]
fn missing_trailing_brace_is_an_error() {
    let reg = reg(vec![("FIRST_NAME", jstr("Slim")), ("LAST_NAME", jstr("Shady"))]);
    assert_eq!(
        reg.read_match("My name is ${FIRST_NAME} ${LAST_NAME").unwrap_err(),
        FrError::FrameParsef(
            "Missing trailing brace for Cut Variable",
            "${LAST_NAME".to_string()
        )
    );
}

#[test]
fn write_extraction_with_surrounding_literal() {
    let m = Register::write_match("NAME", "My name is ${NAME}.", "My name is Slim Shady.")
        .unwrap()
        .unwrap();
    assert_eq!(m, "Slim Shady");
    let whole = Register::write_match("SINGLE", "${SINGLE}", "my big hit").unwrap().unwrap();
    assert_eq!(whole, "my big hit");
    let err = Register::write_match("SINGLE", "${SINGLE}|", "|2").unwrap_err();
    assert_eq!(
        err.to_display_string(),
        "WriteInstructionError: Frame String templating mismatch"
    );
}

#[test]
fn flush_ignored_removes_lowercase_names() {
    let mut reg = reg(vec![
        ("USER_ID", jstr("BIG_BEN")),
        ("tmp", jstr("scratch")),
        ("_secret", jstr("s")),
        ("mixed_Case", jstr("kept")),
    ]);
    reg.flush_ignored();
    assert!(reg.contains_key("USER_ID"));
    assert!(!reg.contains_key("tmp"));
    assert!(!reg.contains_key("_secret"));
    assert!(reg.contains_key("mixed_Case"));
}

#[test]
fn destructive_merge_overwrites_in_order() {
    let mut base = reg(vec![("KEY", jstr("VALUE"))]);
    let others = vec![
        reg(vec![("KEY", jstr("NEW_VALUE")), ("NEW_KEY", jstr("NEW_VALUE"))]),
        reg(vec![("NEW_KEY", jobj(vec![("new", jstr("object"))]))]),
        reg(vec![("ignored_key", jstr("ignored_value"))]),
    ];
    base.destructive_merge(others);
    base.flush_ignored();
    assert!(base.get("KEY").unwrap().deep_eq(&jstr("NEW_VALUE")));
    assert!(base.get("NEW_KEY").unwrap().deep_eq(&jobj(vec![("new", jstr("object"))])));
    assert!(!base.contains_key("ignored_key"));
    assert_eq!(reg_len(&base), 2);
}

fn reg_len(r: &Register) -> usize {
    r.iter().len()
}

#[test]
fn register_serialization_is_sorted_and_hidden_values_masked() {
    let reg = reg(vec![
        ("ZETA", jstr("z")),
        ("ALPHA", jstr("a")),
        ("_TOKEN", jstr("top secret")),
    ]);
    assert_eq!(
        reg.to_string_pretty(),
        "{\"ALPHA\":\"a\",\"ZETA\":\"z\",\"_TOKEN\":\"top secret\"}"
    );
    assert_eq!(
        reg.to_string_hidden(),
        "{\"ALPHA\":\"a\",\"ZETA\":\"z\",\"_TOKEN\":\"${_HIDDEN}\"}"
    );
}

#[test]
fn hidden_variable_is_masked_during_hidden_hydration() {
    let reg = reg(vec![("_KEY", jstr("value"))]);
    let mut val = jstr("abc ${_KEY}");
    let mut ms = reg.read_match("abc ${_KEY}").unwrap();
    let m = ms.remove(0);
    reg.read_operation(m, &mut val, true).unwrap();
    assert!(val.deep_eq(&jstr("${_HIDDEN}")));
}

#[test]
fn register_round_trips_through_its_serialized_text() {
    let text = "{\"FIRST_NAME\":\"Primus\",\"RESPONSE\":\"ALRIGHT\"}";
    let reg = Register::from(text).unwrap();
    assert_eq!(reg.to_string_pretty(), text);
    assert!(reg.get("FIRST_NAME").unwrap().deep_eq(&jstr("Primus")));
}

#[test]
fn documents_round_trip_through_json_text() {
    let text = "{\"arr\":[1,true,null,\"x\"],\"num\":-12.5e3,\"obj\":{\"k\":\"v \\\"q\\\" \\\\ \\n\"}}";
    let v = filmreel::codec::parse_json(text).unwrap();
    assert_eq!(filmreel::codec::to_json_string(&v), text);
    let spaced = " {
  \"b\" : 2 ,  \"a\": [ ] } ";
    let w = filmreel::codec::parse_json(spaced).unwrap();
    assert_eq!(filmreel::codec::to_json_string(&w), "{\"a\":[],\"b\":2}");
    assert!(filmreel::codec::parse_json("{\"a\":}").is_err());
    assert!(filmreel::codec::parse_json("nope").is_err());
    assert!(Register::from("[1,2]").is_err());
}

#[test]
fn expect_standalone_var_checks_exact_form() {
    assert!(Register::expect_standalone_var("VAR", "${VAR}").is_ok());
    assert!(Register::expect_standalone_var("VAR", "x${VAR}").is_err());
}
